//! The interactive focus and style state machine: one global style index,
//! per-item style overrides, an optional focused item, and a lifetime
//! counter that clears the focus after a fixed number of passes without
//! interaction.

use vstd::prelude::*;

use crate::assoc::{
    assoc_lookup, assoc_unique, lemma_assoc_lookup_at, lemma_assoc_lookup_none, lemma_assoc_push,
    lemma_assoc_update,
};
use crate::text::{push_char, spec_nat_string, u64_to_string};

verus! {

/// How many named rendering styles the registry holds.
pub const NUM_STYLES: usize = 7;

/// How many passes a focus survives without interaction before it clears.
pub const FOCUS_LIFETIME_LIMIT: usize = 5;

/// A decoded external event, delivered by the platform's signal task.
#[derive(PartialEq, Eq, Structural, Clone, Copy, Debug)]
pub enum SignalEvent {
    /// Move the focus to the next focusable item, or start focusing.
    CycleFocus,
    /// Advance the focused item's style override, or the global style.
    CycleStyle,
    /// Ask the watcher to terminate and persist its style state.
    Terminate,
}

/// The focus that one pass renders with: the focused item's index, if any.
#[derive(Clone, Copy, Debug)]
pub struct Focus(pub Option<usize>);

impl Focus {
    /// A focus on the given item, or no focus.
    pub fn new(index: Option<usize>) -> (f: Focus)
        ensures
            f.0 == index,
    {
        Focus(index)
    }

    /// The focused item's index, if any.
    pub fn index(&self) -> (r: Option<usize>)
        ensures
            r == self.0,
    {
        self.0
    }

    /// The banner text of the focus: `(focus:i)` when an item is focused,
    /// empty otherwise.
    pub fn text(&self) -> (r: String)
        ensures
            r@ == spec_focus_text(self.0),
    {
        match self.0 {
            Some(v) => {
                let mut s = String::new();
                s.append("(focus:");
                let digits = u64_to_string(v as u64);
                s.append(digits.as_str());
                push_char(&mut s, ')');
                proof {
                    assert(s@ =~= "(focus:"@ + spec_nat_string(v as nat) + seq![')']);
                }
                s
            },
            None => String::new(),
        }
    }
}

/// The banner text of a focus value.
pub open spec fn spec_focus_text(f: Option<usize>) -> Seq<char> {
    match f {
        Some(v) => "(focus:"@ + spec_nat_string(v as nat) + seq![')'],
        None => Seq::empty(),
    }
}

/// The focus after one cycle event: an unfocused controller focuses the
/// first item; a focused one moves to the next item modulo the number of
/// focusable items, and stays put when there are none.
pub open spec fn spec_cycle_focus(f: Option<usize>, total: usize) -> Option<usize> {
    match f {
        None => Some(0usize),
        Some(i) => if total == 0 {
            Some(i)
        } else {
            Some((((i as int + 1) % (total as int)) as usize))
        },
    }
}

/// A style override after one cycle event: the first override of an item
/// is style one; later cycles advance it modulo the registry size.
pub open spec fn spec_cycle_override(v: Option<usize>) -> usize {
    match v {
        None => 1usize,
        Some(x) => (((x as int + 1) % (NUM_STYLES as int)) as usize),
    }
}

/// The style index an item renders with: its override if present, else
/// the global style.
pub open spec fn spec_current(o: Seq<(usize, usize)>, global: usize, index: usize) -> usize {
    match assoc_lookup(o, index) {
        Some(v) => v,
        None => global,
    }
}

/// The shared interactive state: focus, global style, per-item overrides,
/// the focus lifetime counter, and the termination flag.
#[derive(Debug)]
pub struct FocusController {
    /// The focused item's flattened index, if any.
    pub focus: Option<usize>,
    /// The style used where no override stands.
    pub global_style: usize,
    /// Per-item style overrides, keyed by flattened item index.
    pub overrides: Vec<(usize, usize)>,
    /// Passes since the last interaction.
    pub lifetime: usize,
    /// How many focusable items the last pass rendered.
    pub total_items: usize,
    /// Whether termination was requested.
    pub terminating: bool,
}

impl FocusController {
    /// Styles stay within the registry and overrides are one per item.
    pub open spec fn wf(&self) -> bool {
        &&& self.global_style < NUM_STYLES
        &&& assoc_unique(self.overrides@)
        &&& forall|j: int|
            0 <= j < self.overrides@.len() ==> (#[trigger] self.overrides@[j]).1 < NUM_STYLES
    }

    /// A fresh controller: unfocused, no overrides, the given global style.
    pub fn new(initial_style: usize) -> (c: FocusController)
        requires
            initial_style < NUM_STYLES,
        ensures
            c.wf(),
            c.focus is None,
            c.global_style == initial_style,
            c.overrides@.len() == 0,
            c.lifetime == 0,
            c.total_items == 0,
            !c.terminating,
    {
        FocusController {
            focus: None,
            global_style: initial_style,
            overrides: Vec::new(),
            lifetime: 0,
            total_items: 0,
            terminating: false,
        }
    }

    /// Installs the overrides loaded from persisted state.
    pub fn set_overrides(&mut self, overrides: Vec<(usize, usize)>)
        requires
            old(self).wf(),
            assoc_unique(overrides@),
            forall|j: int| 0 <= j < overrides@.len() ==> (#[trigger] overrides@[j]).1 < NUM_STYLES,
        ensures
            final(self).wf(),
            *final(self) == (FocusController { overrides, ..*old(self) }),
    {
        self.overrides = overrides;
    }

    /// Publishes how many focusable items the pass just rendered.
    pub fn set_total_items(&mut self, n: usize)
        requires
            old(self).wf(),
        ensures
            final(self).wf(),
            *final(self) == (FocusController { total_items: n, ..*old(self) }),
    {
        self.total_items = n;
    }

    /// Applies one decoded event. A focus cycle moves the focus; a style
    /// cycle advances the focused item's override (or the global style
    /// when unfocused); either resets the lifetime counter. A terminate
    /// event only raises the termination flag.
    pub fn handle_event(&mut self, ev: SignalEvent)
        requires
            old(self).wf(),
        ensures
            final(self).wf(),
            match ev {
                SignalEvent::CycleFocus => *final(self) == (FocusController {
                    focus: spec_cycle_focus(old(self).focus, old(self).total_items),
                    lifetime: 0,
                    ..*old(self)
                }),
                SignalEvent::CycleStyle => {
                    &&& final(self).focus == old(self).focus
                    &&& final(self).total_items == old(self).total_items
                    &&& final(self).terminating == old(self).terminating
                    &&& final(self).lifetime == 0
                    &&& match old(self).focus {
                        None => {
                            &&& final(self).global_style == spec_cycle_override(
                                Some(old(self).global_style),
                            )
                            &&& final(self).overrides == old(self).overrides
                        },
                        Some(i) => {
                            &&& final(self).global_style == old(self).global_style
                            &&& assoc_lookup(final(self).overrides@, i) == Some(
                                spec_cycle_override(assoc_lookup(old(self).overrides@, i)),
                            )
                            &&& forall|q: usize|
                                q != i ==> assoc_lookup(final(self).overrides@, q) == assoc_lookup(
                                    old(self).overrides@,
                                    q,
                                )
                        },
                    }
                },
                SignalEvent::Terminate => *final(self) == (FocusController {
                    terminating: true,
                    ..*old(self)
                }),
            },
    {
        match ev {
            SignalEvent::CycleFocus => {
                let next = match self.focus {
                    None => Some(0usize),
                    Some(i) => {
                        if self.total_items == 0 {
                            Some(i)
                        } else {
                            let m = i % self.total_items;
                            proof {
                                let t = self.total_items as int;
                                vstd::arithmetic::div_mod::lemma_mod_bound(i as int, t);
                                vstd::arithmetic::div_mod::lemma_add_mod_noop(i as int, 1, t);
                                if t == 1 {
                                    vstd::arithmetic::div_mod::lemma_mod_self_0(t);
                                    vstd::arithmetic::div_mod::lemma_small_mod(0nat, 1nat);
                                } else {
                                    vstd::arithmetic::div_mod::lemma_small_mod(1nat, t as nat);
                                    if m as int + 1 < t {
                                        vstd::arithmetic::div_mod::lemma_small_mod(
                                            (m + 1) as nat,
                                            t as nat,
                                        );
                                    } else {
                                        vstd::arithmetic::div_mod::lemma_mod_self_0(t);
                                    }
                                }
                            }
                            if m + 1 >= self.total_items {
                                Some(0usize)
                            } else {
                                Some(m + 1)
                            }
                        }
                    },
                };
                self.focus = next;
                self.lifetime = 0;
            },
            SignalEvent::CycleStyle => {
                match self.focus {
                    None => {
                        self.global_style = if self.global_style + 1 >= NUM_STYLES {
                            0
                        } else {
                            self.global_style + 1
                        };
                    },
                    Some(i) => {
                        self.cycle_override_at(i);
                    },
                }
                self.lifetime = 0;
            },
            SignalEvent::Terminate => {
                self.terminating = true;
            },
        }
    }

    /// Advances the override of item `i`, creating it at style one.
    fn cycle_override_at(&mut self, i: usize)
        requires
            old(self).wf(),
        ensures
            final(self).wf(),
            final(self).focus == old(self).focus,
            final(self).global_style == old(self).global_style,
            final(self).lifetime == old(self).lifetime,
            final(self).total_items == old(self).total_items,
            final(self).terminating == old(self).terminating,
            assoc_lookup(final(self).overrides@, i) == Some(
                spec_cycle_override(assoc_lookup(old(self).overrides@, i)),
            ),
            forall|q: usize|
                q != i ==> assoc_lookup(final(self).overrides@, q) == assoc_lookup(
                    old(self).overrides@,
                    q,
                ),
    {
        let n = self.overrides.len();
        let mut k: usize = 0;
        while k < n
            invariant
                k <= n,
                n == self.overrides@.len(),
                self.wf(),
                *self == *old(self),
                forall|j: int| 0 <= j < k ==> (#[trigger] self.overrides@[j]).0 != i,
            decreases n - k,
        {
            if self.overrides[k].0 == i {
                let v = self.overrides[k].1;
                let next = if v + 1 >= NUM_STYLES {
                    0
                } else {
                    v + 1
                };
                proof {
                    lemma_assoc_lookup_at(self.overrides@, k as int);
                    lemma_assoc_update(self.overrides@, k as int, next);
                }
                self.overrides[k] = (i, next);
                return ;
            }
            k = k + 1;
        }
        proof {
            lemma_assoc_lookup_none(self.overrides@, i);
            lemma_assoc_push(self.overrides@, i, 1usize);
        }
        self.overrides.push((i, 1));
    }

    /// A copy of the override table.
    fn clone_overrides(&self) -> (r: Vec<(usize, usize)>)
        ensures
            r@ == self.overrides@,
    {
        let n = self.overrides.len();
        let mut r: Vec<(usize, usize)> = Vec::new();
        let mut k: usize = 0;
        while k < n
            invariant
                k <= n,
                n == self.overrides@.len(),
                r@ == self.overrides@.subrange(0, k as int),
            decreases n - k,
        {
            r.push(self.overrides[k]);
            proof {
                assert(r@ =~= self.overrides@.subrange(0, k + 1));
            }
            k = k + 1;
        }
        proof {
            assert(self.overrides@.subrange(0, n as int) =~= self.overrides@);
        }
        r
    }

    /// Begins a pass: counts one more pass on the lifetime counter
    /// (wrapping at the machine limit, which a per-pass counter never
    /// reaches in practice), and clears the focus once the counter had
    /// passed the limit. The returned focus is what this pass renders
    /// with.
    pub fn begin_pass(&mut self) -> (f: Focus)
        requires
            old(self).wf(),
        ensures
            final(self).wf(),
            final(self).global_style == old(self).global_style,
            final(self).overrides == old(self).overrides,
            final(self).total_items == old(self).total_items,
            final(self).terminating == old(self).terminating,
            final(self).lifetime == old(self).lifetime.wrapping_add(1),
            final(self).focus == if old(self).lifetime > FOCUS_LIFETIME_LIMIT {
                None::<usize>
            } else {
                old(self).focus
            },
            f.0 == final(self).focus,
    {
        let expired = self.lifetime > FOCUS_LIFETIME_LIMIT;
        self.lifetime = self.lifetime.wrapping_add(1);
        if expired {
            self.focus = None;
            Focus(None)
        } else {
            Focus(self.focus)
        }
    }
}

/// One pass's styling snapshot: the focus that the pass renders with, the
/// global style, and the per-item overrides, all frozen at the top of the
/// pass.
pub struct Styles {
    focus: Focus,
    global_style: usize,
    overrides: Vec<(usize, usize)>,
}

impl Styles {
    /// The focus this pass renders with.
    pub closed spec fn spec_focus(&self) -> Option<usize> {
        self.focus.0
    }

    /// The global style index of the snapshot.
    pub closed spec fn spec_global(&self) -> usize {
        self.global_style
    }

    /// The override table of the snapshot.
    pub closed spec fn spec_overrides(&self) -> Seq<(usize, usize)> {
        self.overrides@
    }

    /// Styles stay within the registry.
    pub closed spec fn wf(&self) -> bool {
        &&& self.global_style < NUM_STYLES
        &&& forall|j: int|
            0 <= j < self.overrides@.len() ==> (#[trigger] self.overrides@[j]).1 < NUM_STYLES
    }

    /// Takes the snapshot that one pass renders with: begins the pass on
    /// the controller (counting the focus lifetime and auto-clearing a
    /// stale focus) and freezes its state.
    pub fn new(ctrl: &mut FocusController) -> (s: Styles)
        requires
            old(ctrl).wf(),
        ensures
            final(ctrl).wf(),
            s.wf(),
            final(ctrl).global_style == old(ctrl).global_style,
            final(ctrl).overrides == old(ctrl).overrides,
            final(ctrl).total_items == old(ctrl).total_items,
            final(ctrl).terminating == old(ctrl).terminating,
            final(ctrl).lifetime == old(ctrl).lifetime.wrapping_add(1),
            final(ctrl).focus == if old(ctrl).lifetime > FOCUS_LIFETIME_LIMIT {
                None::<usize>
            } else {
                old(ctrl).focus
            },
            s.spec_focus() == final(ctrl).focus,
            s.spec_global() == final(ctrl).global_style,
            s.spec_overrides() == final(ctrl).overrides@,
    {
        let focus = ctrl.begin_pass();
        Styles { focus, global_style: ctrl.global_style, overrides: ctrl.clone_overrides() }
    }

    /// The style index that the item at `index` renders with: its override
    /// if one stands, else the global style.
    pub fn current(&self, index: usize) -> (st: usize)
        requires
            self.wf(),
        ensures
            st == spec_current(self.spec_overrides(), self.spec_global(), index),
            st < NUM_STYLES,
    {
        let n = self.overrides.len();
        let mut k: usize = 0;
        while k < n
            invariant
                k <= n,
                n == self.overrides@.len(),
                self.wf(),
                forall|j: int| 0 <= j < k ==> (#[trigger] self.overrides@[j]).0 != index,
            decreases n - k,
        {
            if self.overrides[k].0 == index {
                proof {
                    lemma_assoc_lookup_at(self.overrides@, k as int);
                }
                return self.overrides[k].1;
            }
            k = k + 1;
        }
        proof {
            lemma_assoc_lookup_none(self.overrides@, index);
        }
        self.global_style
    }

    /// The style shown in the banner: the focused item's style when an
    /// item is focused, else the global style.
    pub fn focus_or_global(&self) -> (st: usize)
        requires
            self.wf(),
        ensures
            st == match self.spec_focus() {
                Some(i) => spec_current(self.spec_overrides(), self.spec_global(), i),
                None => self.spec_global(),
            },
            st < NUM_STYLES,
    {
        match self.focus.index() {
            Some(i) => self.current(i),
            None => self.global_style,
        }
    }

    /// The focus of the snapshot.
    pub fn focus(&self) -> (f: Focus)
        ensures
            f.0 == self.spec_focus(),
    {
        self.focus
    }

    /// Whether the item at `index` is the focused one.
    pub fn is_focus(&self, index: usize) -> (r: bool)
        ensures
            r == (self.spec_focus() == Some(index)),
    {
        match self.focus.index() {
            Some(i) => i == index,
            None => false,
        }
    }
}

/// The focus after `k` cycle events from an unfocused controller whose
/// item count stays `total`.
pub open spec fn spec_cycle_focus_iter(k: int, total: usize) -> Option<usize>
    decreases k,
{
    if k <= 0 {
        None
    } else {
        spec_cycle_focus(spec_cycle_focus_iter(k - 1, total), total)
    }
}

/// Law: from an unfocused controller with items to focus, the first cycle
/// event focuses the first item and the k-th focuses item (k-1) modulo the
/// item count, wrapping past the last item.
pub proof fn lemma_cycle_focus_iterates(k: int, total: usize)
    requires
        k >= 1,
        total > 0,
    ensures
        spec_cycle_focus_iter(k, total) == Some((((k - 1) % (total as int)) as usize)),
    decreases k,
{
    let t = total as int;
    if k == 1 {
        vstd::arithmetic::div_mod::lemma_small_mod(0nat, t as nat);
    } else {
        lemma_cycle_focus_iterates(k - 1, total);
        let i = ((k - 2) % t) as usize;
        vstd::arithmetic::div_mod::lemma_mod_bound(k - 2, t);
        assert(spec_cycle_focus_iter(k, total) == spec_cycle_focus(Some(i), total));
        vstd::arithmetic::div_mod::lemma_add_mod_noop(k - 2, 1, t);
        if t == 1 {
            vstd::arithmetic::div_mod::lemma_mod_self_0(t);
            vstd::arithmetic::div_mod::lemma_small_mod(0nat, 1nat);
        } else {
            vstd::arithmetic::div_mod::lemma_small_mod(1nat, t as nat);
            vstd::arithmetic::div_mod::lemma_mod_bound(i as int + 1, t);
            if i as int + 1 < t {
                vstd::arithmetic::div_mod::lemma_small_mod((i + 1) as nat, t as nat);
            } else {
                vstd::arithmetic::div_mod::lemma_mod_self_0(t);
            }
        }
        assert((i as int + 1) % t == (k - 1) % t);
    }
}

} // verus!
