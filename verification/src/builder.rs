//! The builder of the generated entity code: for each entity the `impl`s of the entity traits,
//! the unit structs to define, and the text of the whole code file.
use vstd::prelude::*;
use crate::codegen::{join, joined_with, push_text, strings_view};
use crate::naming::{camel, camel_case, get_uscale, uscale_name};
use crate::text::{dec_digits, push_digits, string_from_chars};

verus! {

/// An `impl` of an entity trait and the trait names it needs imported.
pub struct MetaElem {
    pub impl_str: String,
    pub importables: Vec<String>,
}

/// The `impl Entity` of an entity.
pub open spec fn entity_impl(entity: Seq<char>, t: Seq<char>, n: nat, name: Seq<char>) -> Seq<char> {
    "impl Entity for "@ + entity + " { type T = "@ + t + "; const N: usize = "@ + dec_digits(n)
        + "; const NAME: & str = \""@ + name + "\"; }"@
}

/// The `impl MappableEntity` of an entity.
pub open spec fn mappable_impl(entity: Seq<char>, key: Seq<char>) -> Seq<char> {
    "impl MappableEntity for "@ + entity + " { type KeyType = "@ + key + "; }"@
}

/// The `impl NamespacedEntity` of an entity.
pub open spec fn namespaced_impl(entity: Seq<char>, ns: Seq<char>) -> Seq<char> {
    "impl NamespacedEntity for "@ + entity + " { const NS: & str = \""@ + ns + "\"; }"@
}

/// The `impl MarkedAttribute` of an entity for a marker.
pub open spec fn marked_impl(entity: Seq<char>, marker: Seq<char>, attribute: Seq<char>) -> Seq<char> {
    "impl MarkedAttribute<"@ + marker + "> for "@ + entity + " { type AttributeEntity = "@ + attribute + "; }"@
}

/// The `impl Link` of a link entity.
pub open spec fn link_impl(entity: Seq<char>, source: Seq<char>, target: Seq<char>) -> Seq<char> {
    "impl Link for "@ + entity + " { type Source = "@ + source + "; type Target = "@ + target + "; }"@
}

/// An element's impl text and imports.
pub open spec fn elem_view(e: MetaElem) -> (Seq<char>, Seq<Seq<char>>) {
    (e.impl_str@, strings_view(e.importables@))
}

fn one_import(name: &str) -> (res: Vec<String>)
    ensures
        strings_view(res@) == seq![name@],
{
    let v = vec![crate::srecs::text_of_str(name)];
    proof {
        assert(strings_view(v@) =~= seq![name@]);
    }
    v
}

/// The `impl Entity` of an entity, with `Entity` to import.
pub fn entity_meta(entity: &str, t: &str, n: usize, name: &str) -> (res: MetaElem)
    ensures
        elem_view(res) == (entity_impl(entity@, t@, n as nat, name@), seq!["Entity"@]),
{
    let mut cs: Vec<char> = Vec::new();
    push_text(&mut cs, "impl Entity for ");
    push_text(&mut cs, entity);
    push_text(&mut cs, " { type T = ");
    push_text(&mut cs, t);
    push_text(&mut cs, "; const N: usize = ");
    push_digits(&mut cs, n as u64);
    push_text(&mut cs, "; const NAME: & str = \"");
    push_text(&mut cs, name);
    push_text(&mut cs, "\"; }");
    proof {
        assert(cs@ =~= entity_impl(entity@, t@, n as nat, name@));
    }
    MetaElem { impl_str: string_from_chars(&cs), importables: one_import("Entity") }
}

/// The `impl MappableEntity` of an entity, with `MappableEntity` to import.
pub fn mappable_meta(entity: &str, key: &str) -> (res: MetaElem)
    ensures
        elem_view(res) == (mappable_impl(entity@, key@), seq!["MappableEntity"@]),
{
    let mut cs: Vec<char> = Vec::new();
    push_text(&mut cs, "impl MappableEntity for ");
    push_text(&mut cs, entity);
    push_text(&mut cs, " { type KeyType = ");
    push_text(&mut cs, key);
    push_text(&mut cs, "; }");
    proof {
        assert(cs@ =~= mappable_impl(entity@, key@));
    }
    MetaElem { impl_str: string_from_chars(&cs), importables: one_import("MappableEntity") }
}

/// The `impl NamespacedEntity` of an entity, with `NamespacedEntity` to import.
pub fn namespaced_meta(entity: &str, ns: &str) -> (res: MetaElem)
    ensures
        elem_view(res) == (namespaced_impl(entity@, ns@), seq!["NamespacedEntity"@]),
{
    let mut cs: Vec<char> = Vec::new();
    push_text(&mut cs, "impl NamespacedEntity for ");
    push_text(&mut cs, entity);
    push_text(&mut cs, " { const NS: & str = \"");
    push_text(&mut cs, ns);
    push_text(&mut cs, "\"; }");
    proof {
        assert(cs@ =~= namespaced_impl(entity@, ns@));
    }
    MetaElem { impl_str: string_from_chars(&cs), importables: one_import("NamespacedEntity") }
}

/// The `impl MarkedAttribute` of an entity for a marker, with `MarkedAttribute` to import.
pub fn marked_meta(entity: &str, marker: &str, attribute: &str) -> (res: MetaElem)
    ensures
        elem_view(res) == (marked_impl(entity@, marker@, attribute@), seq!["MarkedAttribute"@]),
{
    let mut cs: Vec<char> = Vec::new();
    push_text(&mut cs, "impl MarkedAttribute<");
    push_text(&mut cs, marker);
    push_text(&mut cs, "> for ");
    push_text(&mut cs, entity);
    push_text(&mut cs, " { type AttributeEntity = ");
    push_text(&mut cs, attribute);
    push_text(&mut cs, "; }");
    proof {
        assert(cs@ =~= marked_impl(entity@, marker@, attribute@));
    }
    MetaElem { impl_str: string_from_chars(&cs), importables: one_import("MarkedAttribute") }
}

/// The `impl Link` of a link entity, with `Link` to import.
pub fn link_meta(entity: &str, source: &str, target: &str) -> (res: MetaElem)
    ensures
        elem_view(res) == (link_impl(entity@, source@, target@), seq!["Link"@]),
{
    let mut cs: Vec<char> = Vec::new();
    push_text(&mut cs, "impl Link for ");
    push_text(&mut cs, entity);
    push_text(&mut cs, " { type Source = ");
    push_text(&mut cs, source);
    push_text(&mut cs, "; type Target = ");
    push_text(&mut cs, target);
    push_text(&mut cs, "; }");
    proof {
        assert(cs@ =~= link_impl(entity@, source@, target@));
    }
    MetaElem { impl_str: string_from_chars(&cs), importables: one_import("Link") }
}

/// The code of the entities gathered so far: the elements in order, and the names of the
/// unit structs to define, each once.
pub struct MainBuilder {
    pub meta_elems: Vec<MetaElem>,
    pub definables: Vec<String>,
}

/// The elements' impl texts and imports.
pub open spec fn elems_view(es: Seq<MetaElem>) -> Seq<(Seq<char>, Seq<Seq<char>>)> {
    es.map_values(|e: MetaElem| elem_view(e))
}

/// `s` with `x` added at the end unless it holds it already.
pub open spec fn added_once(s: Seq<Seq<char>>, x: Seq<char>) -> Seq<Seq<char>> {
    if s.contains(x) {
        s
    } else {
        s.push(x)
    }
}

/// Each text once, in the order of its first appearance.
pub open spec fn distinct_in_order(s: Seq<Seq<char>>) -> Seq<Seq<char>>
    decreases s.len(),
{
    if s.len() == 0 {
        Seq::empty()
    } else {
        added_once(distinct_in_order(s.drop_last()), s.last())
    }
}

/// All the imports of the elements, in order.
pub open spec fn all_imports(es: Seq<(Seq<char>, Seq<Seq<char>>)>) -> Seq<Seq<char>>
    decreases es.len(),
{
    if es.len() == 0 {
        Seq::empty()
    } else {
        all_imports(es.drop_last()) + es.last().1
    }
}

/// The text of the code file: the import of the traits, each once, a unit struct for each
/// definable, and the elements' impls, separated by blank lines.
pub open spec fn code_file(es: Seq<(Seq<char>, Seq<Seq<char>>)>, defs: Seq<Seq<char>>) -> Seq<char> {
    joined_with(
        seq!["use dmove::{"@ + joined_with(distinct_in_order(all_imports(es)), ", "@) + "};"@]
            + defs.map_values(|d: Seq<char>| "pub struct "@ + d + " { }"@) + es.map_values(
            |e: (Seq<char>, Seq<Seq<char>>)| e.0,
        ),
        "\n\n"@,
    )
}

fn contains_text(v: &Vec<String>, x: &str) -> (res: bool)
    ensures
        res == strings_view(v@).contains(x@),
{
    let mut i: usize = 0;
    while i < v.len()
        invariant
            i <= v@.len(),
            forall|k: int| 0 <= k < i ==> v@[k]@ != x@,
        decreases v@.len() - i,
    {
        if crate::text::str_eq(v[i].as_str(), x) {
            proof {
                assert(strings_view(v@)[i as int] == x@);
            }
            return true;
        }
        i += 1;
    }
    proof {
        if strings_view(v@).contains(x@) {
            let k = choose|k: int| 0 <= k < strings_view(v@).len() && strings_view(v@)[k] == x@;
            assert(v@[k]@ == x@);
        }
    }
    false
}

fn add_once(v: &mut Vec<String>, x: &str)
    ensures
        strings_view(final(v)@) == added_once(strings_view(old(v)@), x@),
{
    if !contains_text(v, x) {
        let ghost before = strings_view(v@);
        v.push(crate::srecs::text_of_str(x));
        proof {
            assert(strings_view(v@) =~= before.push(x@));
        }
    }
}

impl MainBuilder {
    /// A builder with nothing gathered.
    pub fn new() -> (res: Self)
        ensures
            res.meta_elems@.len() == 0,
            res.definables@.len() == 0,
    {
        Self { meta_elems: Vec::new(), definables: Vec::new() }
    }

    /// Adds an entity: its `Entity` impl under its camel-case name, its `MappableEntity` impl
    /// keyed by `usize` where it is compact, and its unit struct; returns the camel-case name.
    pub fn add_simple_etrait(&mut self, name: &str, ty_text: &str, n: usize, compact: bool) -> (res: String)
        ensures
            res@ == camel(name@, true),
            elems_view(final(self).meta_elems@) == elems_view(old(self).meta_elems@) + if compact {
                seq![
                    (entity_impl(res@, ty_text@, n as nat, name@), seq!["Entity"@]),
                    (mappable_impl(res@, "usize"@), seq!["MappableEntity"@]),
                ]
            } else {
                seq![(entity_impl(res@, ty_text@, n as nat, name@), seq!["Entity"@])]
            },
            strings_view(final(self).definables@) == added_once(strings_view(old(self).definables@), res@),
    {
        let camel_name = camel_case(name);
        let ghost before = elems_view(self.meta_elems@);
        let e = entity_meta(camel_name.as_str(), ty_text, n, name);
        let ghost ev = elem_view(e);
        self.meta_elems.push(e);
        proof {
            assert(elems_view(self.meta_elems@) =~= before.push(ev));
        }
        if compact {
            let m = mappable_meta(camel_name.as_str(), "usize");
            let ghost mv = elem_view(m);
            self.meta_elems.push(m);
            proof {
                assert(elems_view(self.meta_elems@) =~= before.push(ev).push(mv));
            }
        }
        add_once(&mut self.definables, camel_name.as_str());
        camel_name
    }

    /// Adds an entity whose type is the smallest unsigned type that holds `n`.
    pub fn add_scaled_entity(&mut self, name: &str, n: usize, compact: bool) -> (res: String)
        requires
            n < 0x1_0000_0000,
        ensures
            res@ == camel(name@, true),
            elems_view(final(self).meta_elems@) == elems_view(old(self).meta_elems@) + if compact {
                seq![
                    (entity_impl(res@, uscale_name(n as nat), n as nat, name@), seq!["Entity"@]),
                    (mappable_impl(res@, "usize"@), seq!["MappableEntity"@]),
                ]
            } else {
                seq![(entity_impl(res@, uscale_name(n as nat), n as nat, name@), seq!["Entity"@])]
            },
            strings_view(final(self).definables@) == added_once(strings_view(old(self).definables@), res@),
    {
        let t = get_uscale(n);
        self.add_simple_etrait(name, t.as_str(), n, compact)
    }

    /// Declares the namespace of an entity.
    pub fn declare_ns(&mut self, name: &str, ns: &str)
        ensures
            elems_view(final(self).meta_elems@) == elems_view(old(self).meta_elems@).push(
                (namespaced_impl(camel(name@, true), ns@), seq!["NamespacedEntity"@]),
            ),
            final(self).definables@ == old(self).definables@,
    {
        let c = camel_case(name);
        let ghost before = elems_view(self.meta_elems@);
        let e = namespaced_meta(c.as_str(), ns);
        self.meta_elems.push(e);
        proof {
            assert(elems_view(self.meta_elems@) =~= before.push(elem_view(e)));
        }
    }

    /// Declares the attribute of a main entity under a marker, by the types' names.
    pub fn declare_marked_attribute(&mut self, main_type: &str, marker_type: &str, name: &str)
        ensures
            elems_view(final(self).meta_elems@) == elems_view(old(self).meta_elems@).push(
                (marked_impl(main_type@, marker_type@, camel(name@, true)), seq!["MarkedAttribute"@]),
            ),
            final(self).definables@ == old(self).definables@,
    {
        let c = camel_case(name);
        let ghost before = elems_view(self.meta_elems@);
        let e = marked_meta(main_type, marker_type, c.as_str());
        self.meta_elems.push(e);
        proof {
            assert(elems_view(self.meta_elems@) =~= before.push(elem_view(e)));
        }
    }

    /// Declares a link from a source entity to a target entity, by the types' names.
    pub fn declare_link(&mut self, name: &str, source_type: &str, target_type: &str)
        ensures
            elems_view(final(self).meta_elems@) == elems_view(old(self).meta_elems@).push(
                (link_impl(camel(name@, true), source_type@, target_type@), seq!["Link"@]),
            ),
            final(self).definables@ == old(self).definables@,
    {
        let c = camel_case(name);
        let ghost before = elems_view(self.meta_elems@);
        let e = link_meta(c.as_str(), source_type, target_type);
        self.meta_elems.push(e);
        proof {
            assert(elems_view(self.meta_elems@) =~= before.push(elem_view(e)));
        }
    }

    /// The text of the code file.
    pub fn code_text(&self) -> (res: String)
        ensures
            res@ == code_file(elems_view(self.meta_elems@), strings_view(self.definables@)),
    {
        let ghost ev = elems_view(self.meta_elems@);
        let mut imports: Vec<String> = Vec::new();
        let mut impls: Vec<String> = Vec::new();
        let mut i: usize = 0;
        proof {
            assert(ev.take(0) =~= Seq::<(Seq<char>, Seq<Seq<char>>)>::empty());
            assert(all_imports(ev.take(0)) =~= Seq::<Seq<char>>::empty());
        }
        while i < self.meta_elems.len()
            invariant
                i <= self.meta_elems@.len(),
                ev == elems_view(self.meta_elems@),
                strings_view(imports@) == distinct_in_order(all_imports(ev.take(i as int))),
                strings_view(impls@) == ev.take(i as int).map_values(|e: (Seq<char>, Seq<Seq<char>>)| e.0),
            decreases self.meta_elems@.len() - i,
        {
            let e = &self.meta_elems[i];
            let ghost base = all_imports(ev.take(i as int));
            let mut j: usize = 0;
            proof {
                assert(strings_view(e.importables@).take(0) =~= Seq::<Seq<char>>::empty());
                assert(base + strings_view(e.importables@).take(0) =~= base);
            }
            while j < e.importables.len()
                invariant
                    j <= e.importables@.len(),
                    strings_view(imports@) == distinct_in_order(base + strings_view(e.importables@).take(j as int)),
                decreases e.importables@.len() - j,
            {
                add_once(&mut imports, e.importables[j].as_str());
                proof {
                    let iv = strings_view(e.importables@);
                    assert((base + iv.take(j + 1)).drop_last() =~= base + iv.take(j as int));
                    assert((base + iv.take(j + 1)).last() == e.importables@[j as int]@);
                }
                j += 1;
            }
            let ghost before = strings_view(impls@);
            impls.push(e.impl_str.clone());
            proof {
                let iv = strings_view(e.importables@);
                assert(iv.take(j as int) =~= iv);
                assert(ev.take(i + 1).drop_last() =~= ev.take(i as int));
                assert(ev.take(i + 1).last() == elem_view(*e));
                assert(all_imports(ev.take(i + 1)) == base + iv);
                assert(strings_view(impls@) =~= before.push(e.impl_str@));
                assert(ev.take(i + 1).map_values(|e: (Seq<char>, Seq<Seq<char>>)| e.0) =~= ev.take(i as int).map_values(
                    |e: (Seq<char>, Seq<Seq<char>>)| e.0,
                ).push(e.impl_str@));
            }
            i += 1;
        }
        proof {
            assert(ev.take(i as int) =~= ev);
        }
        let mut parts: Vec<String> = Vec::new();
        let mut hc: Vec<char> = Vec::new();
        push_text(&mut hc, "use dmove::{");
        push_text(&mut hc, join(&imports, ", ").as_str());
        push_text(&mut hc, "};");
        parts.push(string_from_chars(&hc));
        let ghost dv = strings_view(self.definables@);
        let mut d: usize = 0;
        proof {
            assert(strings_view(parts@) =~= seq![hc@]);
        }
        while d < self.definables.len()
            invariant
                d <= self.definables@.len(),
                dv == strings_view(self.definables@),
                strings_view(parts@) == seq![hc@] + dv.map_values(|x: Seq<char>| "pub struct "@ + x + " { }"@).take(d as int),
            decreases self.definables@.len() - d,
        {
            let mut sc: Vec<char> = Vec::new();
            push_text(&mut sc, "pub struct ");
            push_text(&mut sc, self.definables[d].as_str());
            push_text(&mut sc, " { }");
            let ghost before = strings_view(parts@);
            parts.push(string_from_chars(&sc));
            proof {
                assert(strings_view(parts@) =~= before.push(sc@));
                assert(dv.map_values(|x: Seq<char>| "pub struct "@ + x + " { }"@).take(d + 1) =~= dv.map_values(
                    |x: Seq<char>| "pub struct "@ + x + " { }"@,
                ).take(d as int).push(sc@));
            }
            d += 1;
        }
        proof {
            assert(dv.map_values(|x: Seq<char>| "pub struct "@ + x + " { }"@).take(d as int) =~= dv.map_values(
                |x: Seq<char>| "pub struct "@ + x + " { }"@,
            ));
        }
        let ghost p0 = strings_view(parts@);
        let ghost iv = strings_view(impls@);
        parts.append(&mut impls);
        proof {
            assert(strings_view(parts@) =~= p0 + iv);
            assert(strings_view(parts@) =~= seq!["use dmove::{"@ + joined_with(distinct_in_order(all_imports(ev)), ", "@) + "};"@]
                + dv.map_values(|x: Seq<char>| "pub struct "@ + x + " { }"@) + ev.map_values(
                |e: (Seq<char>, Seq<Seq<char>>)| e.0,
            ));
        }
        join(&parts, "\n\n")
    }
}

} // verus!
