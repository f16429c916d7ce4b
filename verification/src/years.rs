use vstd::prelude::*;
use crate::entity::Entity;
use crate::metrics::{FINAL_YEAR, START_YEAR};
use vstd::array::ArrayAdditionalExecFns;

verus! {

/// A publication year as the data holds it.
pub type RawYear = u16;

/// The number of year filters.
pub const N_PERS: usize = 12;

/// The years of the data, numbered from the first one.
pub struct Years {}

/// Conversions between raw years and year numbers.
pub struct YearInterface {}

/// The quartiles.
pub struct Qs {}

/// The names of the quartiles.
pub struct QsNames {}

impl Entity for Years {
    type T = u8;

    const N: usize = 76;

    const NAME: &'static str = "years";
}

impl Entity for QsNames {
    type T = String;

    const N: usize = 5;

    const NAME: &'static str = "qs-names";
}

impl Entity for Qs {
    type T = u8;

    const N: usize = 5;

    const NAME: &'static str = "qs";
}

/// The year filters: the first year of the data, then the years from which shorter windows
/// start.
pub fn possible_year_filters() -> (res: Vec<RawYear>)
    ensures
        res@ == seq![START_YEAR, 1970u16, 1990, 2000, 2005, 2010, 2015, 2020, 2021, 2022, 2023, 2024],
{
    let v: Vec<RawYear> = vec![START_YEAR, 1970, 1990, 2000, 2005, 2010, 2015, 2020, 2021, 2022, 2023, 2024];
    proof {
        assert(v@ =~= seq![START_YEAR, 1970u16, 1990, 2000, 2005, 2010, 2015, 2020, 2021, 2022, 2023, 2024]);
    }
    v
}

impl YearInterface {
    /// The raw year of a year number.
    pub fn reverse(y: u8) -> (res: RawYear)
        ensures
            res == y + START_YEAR,
    {
        y as RawYear + START_YEAR
    }

    /// The year number of a raw year within the data's years.
    pub fn parse(raw: RawYear) -> (res: u8)
        requires
            START_YEAR <= raw <= FINAL_YEAR,
        ensures
            res == raw - START_YEAR,
    {
        (raw - START_YEAR) as u8
    }

    /// The year numbers of the data, first to last.
    pub fn iter() -> (res: std::ops::Range<u8>)
        ensures
            res.start == 0,
            res.end == FINAL_YEAR - START_YEAR + 1,
    {
        0..((FINAL_YEAR - START_YEAR + 1) as u8)
    }
}

/// The periods of works: which year filter a work's year falls after.
pub struct WorkPeriods {}

/// The year filters, as the periods count them.
pub open spec fn year_filters() -> Seq<u16> {
    seq![START_YEAR, 1970u16, 1990, 2000, 2005, 2010, 2015, 2020, 2021, 2022, 2023, 2024]
}

impl WorkPeriods {
    /// The last year filter the year reaches; the first where it reaches none.
    pub fn from_year(year: u16) -> (res: u8)
        ensures
            res < N_PERS,
            forall|j: int| res < j < N_PERS ==> year < #[trigger] year_filters()[j],
            res > 0 ==> year >= year_filters()[res as int],
    {
        let filters = possible_year_filters();
        let mut i: usize = N_PERS;
        while i > 0
            invariant
                i <= N_PERS,
                filters@ == year_filters(),
                forall|j: int| i <= j < N_PERS ==> year < #[trigger] year_filters()[j],
            decreases i,
        {
            if year >= filters[i - 1] {
                return (i - 1) as u8;
            }
            i -= 1;
        }
        0
    }
}

/// The years an era counts, from the last one back.
pub const ERA_SIZE: usize = 11;
/// The number of the last year of the data.
pub const MAX_YEAR: usize = 76;
/// The number of the first year of the era.
pub const MIN_YEAR: usize = 66;

/// Counts a year of the era: one more in its slot, nothing for a year outside the era.
pub fn inc_year(era_rec: &mut [u32; 11], year: u8)
    requires
        MIN_YEAR <= year <= MAX_YEAR ==> old(era_rec)@[year - MIN_YEAR] < u32::MAX,
    ensures
        final(era_rec)@ == (if MIN_YEAR <= year <= MAX_YEAR {
            old(era_rec)@.update(year - MIN_YEAR, (old(era_rec)@[year - MIN_YEAR] + 1) as u32)
        } else {
            old(era_rec)@
        }),
{
    let yi = year as usize;
    if MIN_YEAR <= yi && yi <= MAX_YEAR {
        let slot = yi - MIN_YEAR;
        let v = era_rec[slot];
        era_rec.set(slot, v + 1);
    }
}

/// How many of the citing years lie `d` years after `year`.
pub open spec fn citing_in_year(cys: Seq<u8>, year: u8, d: int) -> nat
    decreases cys.len(),
{
    if cys.len() == 0 {
        0
    } else {
        citing_in_year(cys.drop_last(), year, d) + if cys.last() >= year && cys.last() - year == d {
            1nat
        } else {
            0nat
        }
    }
}

/// For a paper of year number `year`, how many citations came in each year from its own to
/// the last one of the data; citations from earlier years are not counted.
pub fn citing_year_counts(year: u8, citing_years: &Vec<u8>) -> (res: Vec<u32>)
    requires
        year <= FINAL_YEAR - START_YEAR,
        forall|k: int| 0 <= k < citing_years@.len() ==> #[trigger] citing_years@[k] <= FINAL_YEAR - START_YEAR,
        citing_years@.len() <= u32::MAX,
    ensures
        res@.len() == FINAL_YEAR - START_YEAR + 1 - year,
        forall|d: int| 0 <= d < res@.len() ==> #[trigger] res@[d] == citing_in_year(citing_years@, year, d),
{
    let n: usize = (FINAL_YEAR - START_YEAR + 1) as usize - year as usize;
    let mut v: Vec<u32> = vec![0u32; n];
    let mut i: usize = 0;
    proof {
        assert(citing_years@.take(0) =~= Seq::<u8>::empty());
    }
    while i < citing_years.len()
        invariant
            i <= citing_years@.len(),
            citing_years@.len() <= u32::MAX,
            year <= FINAL_YEAR - START_YEAR,
            n == FINAL_YEAR - START_YEAR + 1 - year,
            forall|k: int| 0 <= k < citing_years@.len() ==> #[trigger] citing_years@[k] <= FINAL_YEAR - START_YEAR,
            v@.len() == n,
            forall|d: int| 0 <= d < n ==> #[trigger] v@[d] == citing_in_year(citing_years@.take(i as int), year, d),
            forall|d: int| 0 <= d < n ==> #[trigger] v@[d] <= i,
        decreases citing_years@.len() - i,
    {
        let cy = citing_years[i];
        proof {
            assert(citing_years@.take(i + 1).drop_last() =~= citing_years@.take(i as int));
            assert(citing_years@.take(i + 1).last() == cy);
        }
        if cy >= year {
            let d = (cy - year) as usize;
            let c = v[d];
            v.set(d, c + 1);
        }
        i += 1;
    }
    proof {
        assert(citing_years@.take(i as int) =~= citing_years@);
    }
    v
}

} // verus!