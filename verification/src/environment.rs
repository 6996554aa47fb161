//! The environment projector.
//!
//! `EnvSnapshot` models the host toolkit's typed property bag: a flat
//! mapping from key names to typed values, copied rather than mutated.
//! `Stylesheet::set_all` derives from a base snapshot a new one with every
//! stylesheet entry installed, never touching the base.

use vstd::prelude::*;

use crate::style::clone_entries;
use crate::style::clone_entry;
use crate::style::entries_contains;
use crate::style::entries_get;
use crate::style::entries_set;
use crate::style::entries_view;
use crate::style::map_of;
use crate::style::wf_entries;
use crate::style::wf_key;
use crate::style::SpecValue;
use crate::style::StyleEntry;
use crate::style::StyleValue;
use crate::style::Stylesheet;

verus! {

/// A snapshot of the host environment: typed bindings under string keys.
/// Derived snapshots share nothing mutable with their base.
pub struct EnvSnapshot {
    bindings: Vec<StyleEntry>,
}

impl View for EnvSnapshot {
    type V = Seq<(Seq<u8>, SpecValue)>;

    closed spec fn view(&self) -> Seq<(Seq<u8>, SpecValue)> {
        entries_view(self.bindings@)
    }
}

impl EnvSnapshot {
    /// Well-formedness: every binding well-formed, keys unique.
    pub open spec fn wf(&self) -> bool {
        wf_entries(self@)
    }

    /// The mapping this snapshot denotes.
    pub open spec fn as_map(&self) -> Map<Seq<u8>, SpecValue> {
        map_of(self@)
    }

    /// An empty environment.
    pub fn new() -> (r: EnvSnapshot)
        ensures
            r@ == Seq::<(Seq<u8>, SpecValue)>::empty(),
            r.wf(),
    {
        let r = EnvSnapshot { bindings: Vec::new() };
        proof {
            assert(r@ =~= Seq::<(Seq<u8>, SpecValue)>::empty());
        }
        r
    }

    /// How many bindings the snapshot holds.
    pub fn len(&self) -> (n: usize)
        ensures
            n == self@.len(),
    {
        self.bindings.len()
    }

    /// Whether a binding exists under this key.
    pub fn contains_key(&self, k: &Vec<u8>) -> (r: bool)
        ensures
            r == self.as_map().dom().contains(k@),
    {
        entries_contains(&self.bindings, k)
    }

    /// The value bound to a key, if any.
    pub fn get(&self, k: &Vec<u8>) -> (r: Option<&StyleValue>)
        requires
            self.wf(),
        ensures
            match r {
                Some(v) => self.as_map().dom().contains(k@) && v@ == self.as_map()[k@],
                None => !self.as_map().dom().contains(k@),
            },
    {
        entries_get(&self.bindings, k)
    }

    /// Bind a key to a value, replacing any earlier binding.
    pub fn set(&mut self, key: Vec<u8>, value: StyleValue)
        requires
            old(self).wf(),
            wf_key(key@),
            value@.wf(),
        ensures
            final(self).wf(),
            final(self).as_map() == old(self).as_map().insert(key@, value@),
    {
        let out = entries_set(&self.bindings, key, value);
        self.bindings = out;
    }
}

/// Installing entries one after the other on a base mapping.
pub open spec fn install(
    base: Map<Seq<u8>, SpecValue>,
    es: Seq<(Seq<u8>, SpecValue)>,
) -> Map<Seq<u8>, SpecValue>
    decreases es.len(),
{
    if es.len() == 0 {
        base
    } else {
        install(base, es.drop_last()).insert(es.last().0, es.last().1)
    }
}

/// Installing a sequence of entries equals overlaying its mapping on the
/// base, with the entries winning.
pub proof fn lemma_install_is_union(base: Map<Seq<u8>, SpecValue>, es: Seq<(Seq<u8>, SpecValue)>)
    ensures
        install(base, es) == base.union_prefer_right(map_of(es)),
    decreases es.len(),
{
    if es.len() == 0 {
        assert(base.union_prefer_right(map_of(es)) =~= base);
    } else {
        lemma_install_is_union(base, es.drop_last());
        assert(install(base, es) =~= base.union_prefer_right(map_of(es)));
    }
}

impl Stylesheet {
    /// The environment projector: a new snapshot with every stylesheet
    /// entry installed as a typed binding under its key, overriding or
    /// introducing those keys; every other binding of the base unchanged.
    /// The base is only read.
    pub fn set_all(&self, env: &EnvSnapshot) -> (out: EnvSnapshot)
        requires
            self.wf(),
            env.wf(),
        ensures
            out.wf(),
            out.as_map() == env.as_map().union_prefer_right(self.as_map()),
    {
        let ghost style_es = self@;
        let n = self.len();
        let mut bindings: Vec<StyleEntry> = clone_entries(&env.bindings);
        let mut i: usize = 0;
        while i < n
            invariant
                n == style_es.len(),
                style_es == self@,
                self.wf(),
                wf_entries(entries_view(bindings@)),
                0 <= i <= n,
                map_of(entries_view(bindings@)) == install(env.as_map(), style_es.take(i as int)),
            decreases n - i,
        {
            proof {
                assert(style_es.take(i + 1).drop_last() =~= style_es.take(i as int));
                assert(wf_key(style_es[i as int].0) && style_es[i as int].1.wf());
            }
            let e = clone_entry(self.entry_at(i));
            bindings = entries_set(&bindings, e.key, e.value);
            i += 1;
        }
        proof {
            assert(style_es.take(n as int) =~= style_es);
            lemma_install_is_union(env.as_map(), style_es);
        }
        EnvSnapshot { bindings }
    }
}

/// What the projection contains, spelled out: exactly the stylesheet's
/// keys with the stylesheet's values, every other key of the base with the
/// base's value, and nothing else.
pub proof fn lemma_projection_exact(
    base: Map<Seq<u8>, SpecValue>,
    style: Map<Seq<u8>, SpecValue>,
)
    ensures
        forall|k: Seq<u8>|
            style.dom().contains(k) ==> base.union_prefer_right(style).dom().contains(k)
                && base.union_prefer_right(style)[k] == style[k],
        forall|k: Seq<u8>|
            base.dom().contains(k) && !style.dom().contains(k) ==> base.union_prefer_right(
                style,
            ).dom().contains(k) && base.union_prefer_right(style)[k] == base[k],
        forall|k: Seq<u8>|
            base.union_prefer_right(style).dom().contains(k) ==> base.dom().contains(k)
                || style.dom().contains(k),
{
}

} // verus!
