//! The decorator widget's state core.
//!
//! `ThemeLoader` wraps one child and owns the current stylesheet. The
//! host toolkit drives it: construction parses the initial file (failure
//! is fatal to construction), a reload command re-parses the file and
//! swaps the stylesheet in wholesale — or, on a bad file, keeps the prior
//! one — and every lifecycle callback projects the stylesheet onto the
//! base environment before the callback is forwarded to the child.

use vstd::prelude::*;

use crate::codec::parse;
use crate::codec::sp_sheet;
use crate::codec::ParseError;
use crate::environment::EnvSnapshot;
use crate::style::map_of;
use crate::style::wf_entries;
use crate::style::SpecValue;
use crate::style::Stylesheet;

verus! {

/// One reload step: successful contents replace the stylesheet, anything
/// else (unreadable file, bad syntax, duplicate key) keeps it.
pub open spec fn reload_step(
    style: Seq<(Seq<u8>, SpecValue)>,
    contents: Option<Seq<u8>>,
) -> Seq<(Seq<u8>, SpecValue)> {
    match contents {
        Some(c) => match sp_sheet(c) {
            Some(es) => es,
            None => style,
        },
        None => style,
    }
}

/// A run of reload signals, applied in order.
pub open spec fn reload_fold(
    style: Seq<(Seq<u8>, SpecValue)>,
    signals: Seq<Option<Seq<u8>>>,
) -> Seq<(Seq<u8>, SpecValue)>
    decreases signals.len(),
{
    if signals.len() == 0 {
        style
    } else {
        reload_step(reload_fold(style, signals.drop_last()), signals.last())
    }
}

/// A duplicate reload signal changes nothing: one delivery or many, the
/// stylesheet ends the same.
pub proof fn lemma_reload_idempotent(style: Seq<(Seq<u8>, SpecValue)>, c: Option<Seq<u8>>)
    ensures
        reload_step(reload_step(style, c), c) == reload_step(style, c),
{
}

/// Rapid writes collapse to an eventually-consistent final state: after
/// any run of reload signals, the stylesheet is exactly the parse of the
/// last successfully-written contents — duplicated signals, unreadable
/// reads and unparsable writes after it leave no trace, whatever states
/// the run went through.
pub proof fn lemma_reloads_collapse(
    style: Seq<(Seq<u8>, SpecValue)>,
    signals: Seq<Option<Seq<u8>>>,
    k: int,
    c: Seq<u8>,
)
    requires
        0 <= k < signals.len(),
        signals[k] == Some(c),
        sp_sheet(c) is Some,
        forall|j: int|
            k < j < signals.len() ==> match #[trigger] signals[j] {
                Some(c2) => sp_sheet(c2) is None,
                None => true,
            },
    ensures
        reload_fold(style, signals) == sp_sheet(c).unwrap(),
    decreases signals.len(),
{
    if k == signals.len() - 1 {
    } else {
        let prev = signals.drop_last();
        assert forall|j: int| k < j < prev.len() implies match #[trigger] prev[j] {
            Some(c2) => sp_sheet(c2) is None,
            None => true,
        } by {
            assert(signals[j] == prev[j]);
        }
        assert(prev[k] == signals[k]);
        lemma_reloads_collapse(style, prev, k, c);
        match signals.last() {
            Some(c2) => {
                assert(signals[signals.len() - 1] == Some(c2));
                assert(sp_sheet(c2) is None);
            },
            None => {},
        }
    }
}

/// A reload with contents that do not parse — bad syntax, a duplicated
/// key — keeps the stylesheet exactly as it was, so the effective
/// environment projected from it stays identical: no partial update.
pub proof fn lemma_failed_reload_keeps_style(style: Seq<(Seq<u8>, SpecValue)>, c: Seq<u8>)
    requires
        sp_sheet(c) is None,
    ensures
        reload_step(style, Some(c)) == style,
{
}

/// An event forwarded to the decorator: the host's reload command,
/// carrying the outcome of re-reading the watched file (`None` when the
/// file could not be read), or any other event of the host toolkit.
pub enum WidgetEvent {
    Reload(Option<Vec<u8>>),
    Other,
}

/// The decorator: one child, the active stylesheet.
pub struct ThemeLoader<W> {
    style: Stylesheet,
    /// The wrapped child, to which the host forwards every callback.
    pub child: W,
}

impl<W> ThemeLoader<W> {
    /// The entries of the active stylesheet.
    pub closed spec fn style_view(&self) -> Seq<(Seq<u8>, SpecValue)> {
        self.style@
    }

    /// The wrapped child, as contracts speak of it.
    pub closed spec fn child_spec(&self) -> W {
        self.child
    }

    /// The mapping of the active stylesheet.
    pub open spec fn style_map(&self) -> Map<Seq<u8>, SpecValue> {
        map_of(self.style_view())
    }

    /// Well-formedness: the active stylesheet is well-formed.
    pub open spec fn wf(&self) -> bool {
        wf_entries(self.style_view())
    }

    /// Construction: parse the initial file contents and wrap the child.
    /// Fails exactly when the contents do not parse; the caller treats
    /// that as fatal, so no loader exists without a valid stylesheet.
    pub fn new(child: W, initial: &Vec<u8>) -> (r: Result<ThemeLoader<W>, ParseError>)
        requires
            initial@.len() < usize::MAX,
        ensures
            (r is Ok) == (sp_sheet(initial@) is Some),
            r matches Ok(t) ==> t.style_view() == sp_sheet(initial@).unwrap() && t.wf()
                && t.child_spec() == child,
    {
        match parse(initial) {
            Ok(style) => Ok(ThemeLoader { style, child }),
            Err(e) => Err(e),
        }
    }

    /// The active stylesheet.
    pub fn stylesheet(&self) -> (s: &Stylesheet)
        ensures
            s@ == self.style_view(),
    {
        &self.style
    }

    /// One reload: parse the re-read file contents and swap the
    /// stylesheet in; on an unreadable or invalid file keep the prior
    /// stylesheet. Returns whether a redraw must be requested, which is
    /// exactly on a successful swap.
    pub fn on_reload(&mut self, contents: Option<&Vec<u8>>) -> (redraw: bool)
        requires
            old(self).wf(),
            contents matches Some(c) ==> c@.len() < usize::MAX,
        ensures
            final(self).wf(),
            final(self).child_spec() == old(self).child_spec(),
            final(self).style_view() == reload_step(
                old(self).style_view(),
                match contents {
                    Some(c) => Some(c@),
                    None => None,
                },
            ),
            redraw == (contents matches Some(c) && sp_sheet(c@) is Some),
    {
        match contents {
            Some(c) => match parse(c) {
                Ok(style) => {
                    self.style = style;
                    true
                },
                Err(_) => false,
            },
            None => false,
        }
    }

    /// The event callback's decisions: handle a reload command, then
    /// compute the environment the child is given.
    /// The environment handed out is always the base overlaid with the
    /// stylesheet active after the event — so a failed reload hands out
    /// an environment identical to the pre-reload one.
    pub fn event(&mut self, ev: &WidgetEvent, base: &EnvSnapshot) -> (r: (EnvSnapshot, bool))
        requires
            old(self).wf(),
            base.wf(),
            ev matches WidgetEvent::Reload(Some(c)) ==> c@.len() < usize::MAX,
        ensures
            final(self).wf(),
            final(self).child_spec() == old(self).child_spec(),
            final(self).style_view() == match ev {
                WidgetEvent::Reload(c) => reload_step(
                    old(self).style_view(),
                    match c {
                        Some(c) => Some(c@),
                        None => None,
                    },
                ),
                WidgetEvent::Other => old(self).style_view(),
            },
            r.1 == (ev matches WidgetEvent::Reload(Some(c)) && sp_sheet(c@) is Some),
            r.0.wf(),
            r.0.as_map() == base.as_map().union_prefer_right(map_of(final(self).style_view())),
    {
        let redraw = match ev {
            WidgetEvent::Reload(c) => {
                let contents = match c {
                    Some(v) => Some(v),
                    None => None,
                };
                self.on_reload(contents)
            },
            WidgetEvent::Other => false,
        };
        let env = self.style.set_all(base);
        (env, redraw)
    }

    /// The environment the child is given on the other lifecycle
    /// callbacks (lifecycle, update, layout, paint): the base with every
    /// stylesheet entry installed, the base itself untouched.
    pub fn effective_env(&self, base: &EnvSnapshot) -> (out: EnvSnapshot)
        requires
            self.wf(),
            base.wf(),
        ensures
            out.wf(),
            out.as_map() == base.as_map().union_prefer_right(self.style_map()),
    {
        self.style.set_all(base)
    }
}

} // verus!
