use vstd::prelude::*;
use crate::sorting::{be_bytes, be_bytes_exec};

verus! {

/// The variable-size records of an attribute, one box per key.
pub struct VarBox<T>(pub Vec<T>);

/// Where each key's record starts in the flat array, and how long it is.
pub struct Locators {
    pub divided_sizes: Vec<usize>,
    pub divided_locs: Vec<usize>,
}

/// Variable-size records held flat, with the place and length of each.
pub struct VattArrPair<T> {
    pub arr: Vec<T>,
    pub locators: Locators,
}

impl Locators {
    /// No records.
    pub fn empty() -> (res: Self)
        ensures
            res.divided_sizes@.len() == 0,
            res.divided_locs@.len() == 0,
    {
        Self { divided_sizes: Vec::new(), divided_locs: Vec::new() }
    }
}

/// The records one after another.
pub open spec fn flat<T>(boxes: Seq<Vec<T>>) -> Seq<T>
    decreases boxes.len(),
{
    if boxes.len() == 0 {
        Seq::empty()
    } else {
        flat(boxes.drop_last()) + boxes.last()@
    }
}

impl<T: Copy> VattArrPair<T> {
    /// As many places as lengths, and every record inside the array.
    pub open spec fn wf(&self) -> bool {
        &&& self.locators.divided_sizes@.len() == self.locators.divided_locs@.len()
        &&& forall|k: int| 0 <= k < self.locators.divided_locs@.len() ==>
            #[trigger] self.locators.divided_locs@[k] + self.locators.divided_sizes@[k] <= self.arr@.len()
    }

    /// The record of key `k`.
    pub open spec fn record(&self, k: int) -> Seq<T> {
        self.arr@.subrange(
            self.locators.divided_locs@[k] as int,
            self.locators.divided_locs@[k] + self.locators.divided_sizes@[k],
        )
    }

    /// The record of key `k`, where there is one.
    pub fn get(&self, k: &usize) -> (res: Option<&[T]>)
        requires
            self.wf(),
        ensures
            match res {
                Some(r) => *k < self.locators.divided_locs@.len() && r@ == self.record(*k as int),
                None => *k >= self.locators.divided_locs@.len(),
            },
    {
        if *k >= self.locators.divided_locs.len() {
            return None;
        }
        let _n = self.arr.len();
        let divided_loc = self.locators.divided_locs[*k];
        let divided_size = self.locators.divided_sizes[*k];
        proof {
            assert(self.locators.divided_locs@[*k as int] + self.locators.divided_sizes@[*k as int] <= self.arr@.len());
        }
        let end_i = divided_loc + divided_size;
        Some(vstd::slice::slice_subrange(self.arr.as_slice(), divided_loc, end_i))
    }

    /// No records.
    pub fn empty() -> (res: Self)
        ensures
            res.wf(),
            res.arr@.len() == 0,
            res.locators.divided_locs@.len() == 0,
    {
        Self { arr: Vec::new(), locators: Locators::empty() }
    }

    /// The records laid out flat, each with its place and length.
    pub fn from_boxes(value: VarBox<Vec<T>>) -> (res: Self)
        requires
            flat(value.0@).len() <= usize::MAX,
        ensures
            res.wf(),
            res.arr@ == flat(value.0@),
            res.locators.divided_locs@.len() == value.0@.len(),
            forall|k: int| 0 <= k < value.0@.len() ==> #[trigger] res.record(k) == value.0@[k]@,
    {
        let boxes = value.0;
        let ghost bs = boxes@;
        let mut arr: Vec<T> = Vec::new();
        let mut divided_sizes: Vec<usize> = Vec::new();
        let mut divided_locs: Vec<usize> = Vec::new();
        let mut i: usize = 0;
        proof {
            assert(bs.subrange(0, 0) =~= Seq::<Vec<T>>::empty());
        }
        while i < boxes.len()
            invariant
                bs == boxes@,
                flat(bs).len() <= usize::MAX,
                i <= bs.len(),
                arr@ == flat(bs.subrange(0, i as int)),
                divided_sizes@.len() == i,
                divided_locs@.len() == i,
                forall|k: int| 0 <= k < i ==> #[trigger] divided_locs@[k] + divided_sizes@[k] <= arr@.len(),
                forall|k: int| 0 <= k < i ==> #[trigger] arr@.subrange(divided_locs@[k] as int, divided_locs@[k] + divided_sizes@[k]) == bs[k]@,
            decreases bs.len() - i,
        {
            proof {
                lemma_flat_prefix_len(bs, i as int + 1);
                assert(bs.subrange(0, i + 1).drop_last() =~= bs.subrange(0, i as int));
            }
            let b = &boxes[i];
            let start = arr.len();
            divided_locs.push(start);
            divided_sizes.push(b.len());
            let ghost before = arr@;
            let mut j: usize = 0;
            while j < b.len()
                invariant
                    j <= b@.len(),
                    arr@ == before + b@.subrange(0, j as int),
                    before.len() + b@.len() <= usize::MAX,
                decreases b@.len() - j,
            {
                arr.push(b[j]);
                proof {
                    assert(arr@ =~= before + b@.subrange(0, j + 1));
                }
                j += 1;
            }
            proof {
                assert(b@.subrange(0, j as int) =~= b@);
                assert forall|k: int| 0 <= k < i + 1 implies #[trigger] arr@.subrange(divided_locs@[k] as int, divided_locs@[k] + divided_sizes@[k]) == bs[k]@ by {
                    if k < i {
                        assert(arr@.subrange(divided_locs@[k] as int, divided_locs@[k] + divided_sizes@[k]) =~= before.subrange(divided_locs@[k] as int, divided_locs@[k] + divided_sizes@[k]));
                    } else {
                        assert(arr@.subrange(start as int, start + b@.len()) =~= b@);
                    }
                }
            }
            i += 1;
        }
        proof {
            assert(bs.subrange(0, i as int) =~= bs);
        }
        let res = Self { arr, locators: Locators { divided_sizes, divided_locs } };
        proof {
            assert forall|k: int| 0 <= k < bs.len() implies #[trigger] res.record(k) == bs[k]@ by {
                assert(res.arr@.subrange(res.locators.divided_locs@[k] as int, res.locators.divided_locs@[k] + res.locators.divided_sizes@[k]) == bs[k]@);
            }
        }
        res
    }
}

/// A prefix of the records is no longer than all of them.
proof fn lemma_flat_prefix_len<T>(bs: Seq<Vec<T>>, i: int)
    requires
        0 <= i <= bs.len(),
    ensures
        flat(bs.subrange(0, i)).len() <= flat(bs).len(),
    decreases bs.len() - i,
{
    if i < bs.len() {
        lemma_flat_prefix_len(bs, i + 1);
        assert(bs.subrange(0, i + 1).drop_last() =~= bs.subrange(0, i));
    } else {
        assert(bs.subrange(0, i) =~= bs);
    }
}

/// Reading key `k` of records laid out flat gives back the `k`-th record.
pub proof fn law_get_after_from_boxes<T: Copy>(pair: VattArrPair<T>, boxes: Seq<Vec<T>>, k: int)
    requires
        pair.wf(),
        pair.locators.divided_locs@.len() == boxes.len(),
        forall|j: int| 0 <= j < boxes.len() ==> #[trigger] pair.record(j) == boxes[j]@,
        0 <= k < boxes.len(),
    ensures
        pair.record(k) == boxes[k]@,
        pair.locators.divided_locs@[k] + pair.locators.divided_sizes@[k] <= pair.arr@.len(),
{
}

/// The byte width of the smallest unsigned type whose values reach past `max_size`: one
/// byte below 2^8, two below 2^16, four below 2^32, eight below 2^64, else sixteen.
pub open spec fn minimal_width(max_size: nat) -> nat {
    if max_size < 0x100 {
        1
    } else if max_size < 0x1_0000 {
        2
    } else if max_size < 0x1_0000_0000 {
        4
    } else if max_size < 0x1_0000_0000_0000_0000 {
        8
    } else {
        16
    }
}

/// The name of the unsigned type of that byte width.
pub open spec fn width_label(w: nat) -> Seq<char> {
    if w == 1 {
        "u8"@
    } else if w == 2 {
        "u16"@
    } else if w == 4 {
        "u32"@
    } else if w == 8 {
        "u64"@
    } else {
        "u128"@
    }
}

/// The numbers one after another, each as the `w` low bytes of its value, the most
/// significant first: what casting it to the type of that width and writing its big-endian
/// bytes gives.
pub open spec fn numbers_bytes(ns: Seq<usize>, w: nat) -> Seq<u8>
    decreases ns.len(),
{
    if ns.len() == 0 {
        Seq::empty()
    } else {
        numbers_bytes(ns.drop_last(), w) + be_bytes(ns.last() as nat, w)
    }
}

/// Writes the numbers in the smallest unsigned type that holds `max_size`, and names that
/// type.
pub fn write_minimal(numbers: &Vec<usize>, max_size: usize) -> (res: (Vec<u8>, String))
    ensures
        res.0@ == numbers_bytes(numbers@, minimal_width(max_size as nat)),
        res.1@ == width_label(minimal_width(max_size as nat)),
{
    let (w, label): (usize, String) = if max_size < 0x100 {
        (1, String::from_str("u8"))
    } else if max_size < 0x1_0000 {
        (2, String::from_str("u16"))
    } else if (max_size as u64) < 0x1_0000_0000 {
        (4, String::from_str("u32"))
    } else {
        (8, String::from_str("u64"))
    };
    let mut out: Vec<u8> = Vec::new();
    let mut i: usize = 0;
    while i < numbers.len()
        invariant
            i <= numbers@.len(),
            w as nat == minimal_width(max_size as nat),
            out@ == numbers_bytes(numbers@.take(i as int), w as nat),
        decreases numbers@.len() - i,
    {
        let mut b = be_bytes_exec(numbers[i] as u64, w);
        out.append(&mut b);
        proof {
            assert(numbers@.take(i + 1).drop_last() =~= numbers@.take(i as int));
        }
        i += 1;
    }
    proof {
        assert(numbers@.take(i as int) =~= numbers@);
    }
    (out, label)
}

} // verus!
