//! Decisions taken on the compositor's IPC events.

use vstd::prelude::*;
use crate::text::same_text;
use crate::status::{LayoutState, name_layout};
use crate::tags::{any_visible, event_tag, frame_tags, is_stable_sort_of, tag_from_event, Tag, TagState};

verus! {

/// What the bar knows of one output of the compositor.
pub struct OutputInfo {
    /// Whether the output itself is bound.
    pub has_wl_output: bool,
    /// The output's name, once the compositor has told it.
    pub name: Option<String>,
    /// Whether the tag IPC is already bound for this output.
    pub ipc_bound: bool,
}

/// Whether the tag IPC should be bound for an output now: the IPC manager is
/// there, the output is known and bound and has a name, its IPC is not bound
/// yet, and it is the output asked for when one is.
pub open spec fn bind_now(has_manager: bool, output: Option<&OutputInfo>, filter: Option<Seq<char>>) -> bool {
    &&& has_manager
    &&& output matches Some(o)
    &&& !o.ipc_bound
    &&& o.name matches Some(n)
    &&& (filter matches Some(f) ==> f == n@)
    &&& o.has_wl_output
}

/// Whether the tag IPC should be bound for an output now (see `bind_now`).
pub fn should_bind(has_manager: bool, output: Option<&OutputInfo>, filter: Option<&str>) -> (res: bool)
    ensures
        res == bind_now(
            has_manager,
            output,
            match filter {
                Some(f) => Some(f@),
                None => None,
            },
        ),
{
    if !has_manager {
        return false;
    }
    let o = match output {
        Some(o) => o,
        None => return false,
    };
    if o.ipc_bound {
        return false;
    }
    let name = match &o.name {
        Some(n) => n,
        None => return false,
    };
    if let Some(f) = filter {
        if !same_text(f, name.as_str()) {
            return false;
        }
    }
    o.has_wl_output
}


/// What the IPC connection hands to the bar.
#[derive(Clone, Debug)]
pub enum MangoEvent {
    /// The tags of an output, sorted by number.
    Tags(Vec<Tag>),
    /// The keyboard layout.
    Layout(LayoutState),
}

/// One event of an output's tag IPC.
#[derive(Clone, Debug)]
pub enum OutputEvent {
    /// The state of one tag: its index from 0, its state when known, its
    /// client count and whether a client has focus (non-zero).
    Tag { index: u32, state: Option<TagState>, clients: u32, focused: u32 },
    /// The name of the keyboard layout.
    KbLayout(String),
    /// The end of a batch of events.
    Frame,
    /// Any other event.
    Other,
}

/// The map that a list of `(output, tags)` entries stands for; a later entry
/// of the same output replaces an earlier one.
pub open spec fn entry_map(es: Seq<(String, Vec<Tag>)>) -> Map<Seq<char>, Seq<Tag>>
    decreases es.len(),
{
    if es.len() == 0 {
        Map::empty()
    } else {
        entry_map(es.drop_last()).insert(es.last().0@, es.last().1@)
    }
}

/// No output occurs twice among the entries.
pub open spec fn distinct_outputs(es: Seq<(String, Vec<Tag>)>) -> bool {
    forall|i: int, j: int| 0 <= i < j < es.len() ==> (#[trigger] es[i]).0@ != (#[trigger] es[j]).0@
}

proof fn lemma_entry_map_absent(es: Seq<(String, Vec<Tag>)>, k: Seq<char>)
    requires
        forall|i: int| 0 <= i < es.len() ==> (#[trigger] es[i]).0@ != k,
    ensures
        !entry_map(es).dom().contains(k),
    decreases es.len(),
{
    if es.len() > 0 {
        let t = es.drop_last();
        assert forall|i: int| 0 <= i < t.len() implies (#[trigger] t[i]).0@ != k by {
            assert(t[i] == es[i]);
        }
        lemma_entry_map_absent(t, k);
        assert(es[es.len() - 1].0@ != k);
    }
}

proof fn lemma_entry_map_lookup(es: Seq<(String, Vec<Tag>)>, i: int)
    requires
        distinct_outputs(es),
        0 <= i < es.len(),
    ensures
        entry_map(es).dom().contains(es[i].0@),
        entry_map(es)[es[i].0@] == es[i].1@,
    decreases es.len(),
{
    if i < es.len() - 1 {
        let t = es.drop_last();
        assert(distinct_outputs(t)) by {
            assert forall|a: int, b: int| 0 <= a < b < t.len() implies (#[trigger] t[a]).0@ != (
            #[trigger] t[b]).0@ by {
                assert(t[a] == es[a] && t[b] == es[b]);
            }
        }
        assert(t[i] == es[i]);
        lemma_entry_map_lookup(t, i);
        assert(es[i].0@ != es[es.len() - 1].0@);
    }
}

proof fn lemma_entry_map_remove(es: Seq<(String, Vec<Tag>)>, i: int)
    requires
        distinct_outputs(es),
        0 <= i < es.len(),
    ensures
        entry_map(es.remove(i)) == entry_map(es).remove(es[i].0@),
        distinct_outputs(es.remove(i)),
        forall|j: int| 0 <= j < es.remove(i).len() ==> (#[trigger] es.remove(i)[j]).0@ != es[i].0@,
    decreases es.len(),
{
    let r = es.remove(i);
    assert forall|j: int| 0 <= j < r.len() implies (#[trigger] r[j]).0@ != es[i].0@ by {
        if j < i {
            assert(r[j] == es[j]);
        } else {
            assert(r[j] == es[j + 1]);
        }
    }
    assert(distinct_outputs(r)) by {
        assert forall|a: int, b: int| 0 <= a < b < r.len() implies (#[trigger] r[a]).0@ != (
        #[trigger] r[b]).0@ by {
            let a2 = if a < i { a } else { a + 1 };
            let b2 = if b < i { b } else { b + 1 };
            assert(r[a] == es[a2] && r[b] == es[b2]);
        }
    }
    let t = es.drop_last();
    assert(distinct_outputs(t)) by {
        assert forall|a: int, b: int| 0 <= a < b < t.len() implies (#[trigger] t[a]).0@ != (
        #[trigger] t[b]).0@ by {
            assert(t[a] == es[a] && t[b] == es[b]);
        }
    }
    let k = es[i].0@;
    if i == es.len() - 1 {
        assert(r =~= t);
        assert forall|j: int| 0 <= j < t.len() implies (#[trigger] t[j]).0@ != k by {
            assert(t[j] == es[j]);
        }
        lemma_entry_map_absent(t, k);
        assert(entry_map(es).remove(k) =~= entry_map(t));
    } else {
        lemma_entry_map_remove(t, i);
        assert(r =~= t.remove(i).push(es.last()));
        assert(r.drop_last() =~= t.remove(i));
        assert(r.last() == es.last());
        assert(es[es.len() - 1].0@ != k);
        assert(entry_map(r) =~= entry_map(es).remove(k));
    }
}

/// The view of an optional output name given to filter on.
pub open spec fn filter_view(filter: Option<&str>) -> Option<Seq<char>> {
    match filter {
        Some(f) => Some(f@),
        None => None,
    }
}

/// One attempt to bind the tag IPC for an output: whether it binds now
/// (`bind_now`), and the output afterwards, marked bound when it did.
pub open spec fn bind_step(o: OutputInfo, has_manager: bool, filter: Option<Seq<char>>) -> (
    OutputInfo,
    bool,
) {
    let bound = bind_now(has_manager, Some(&o), filter);
    (
        OutputInfo { has_wl_output: o.has_wl_output, name: o.name, ipc_bound: o.ipc_bound || bound },
        bound,
    )
}

impl OutputInfo {
    /// Decides whether to bind the tag IPC for this output now (see
    /// `bind_now`) and, when it does, marks the output bound. Returns whether
    /// the caller is to bind it.
    pub fn bind_if_ready(&mut self, has_manager: bool, filter: Option<&str>) -> (bound: bool)
        ensures
            (*final(self), bound) == bind_step(*old(self), has_manager, filter_view(filter)),
    {
        let bound = should_bind(has_manager, Some(&*self), filter);
        if bound {
            self.ipc_bound = true;
        }
        bound
    }
}

/// Each output is bound at most once: after an attempt that binds it, any
/// later attempt, whatever the manager and the filter then are, does not
/// bind it again and leaves it as it is; and an output once bound stays
/// marked bound.
pub proof fn lemma_bound_at_most_once(
    o: OutputInfo,
    has_manager: bool,
    filter: Option<Seq<char>>,
    later_manager: bool,
    later_filter: Option<Seq<char>>,
)
    ensures
        bind_step(o, has_manager, filter).0.ipc_bound == (o.ipc_bound || bind_step(
            o,
            has_manager,
            filter,
        ).1),
        o.ipc_bound ==> !bind_step(o, has_manager, filter).1 && bind_step(o, has_manager, filter).0
            == o,
        bind_step(o, has_manager, filter).1 ==> {
            let o1 = bind_step(o, has_manager, filter).0;
            !bind_step(o1, later_manager, later_filter).1 && bind_step(
                o1,
                later_manager,
                later_filter,
            ).0 == o1
        },
{
}

/// An output is bound only when the IPC manager is there, the output itself
/// is bound, its IPC is not yet, and it has a name; with a filter, only the
/// output of exactly that name is bound.
pub proof fn lemma_bind_only_named(o: OutputInfo, has_manager: bool, filter: Option<Seq<char>>)
    ensures
        bind_step(o, has_manager, filter).1 ==> {
            &&& has_manager
            &&& o.has_wl_output
            &&& !o.ipc_bound
            &&& o.name is Some
            &&& filter matches Some(f) ==> o.name->0@ == f
        },
        has_manager && o.has_wl_output && !o.ipc_bound && o.name is Some && (filter matches Some(
            f,
        ) ==> o.name->0@ == f) ==> bind_step(o, has_manager, filter).1,
{
}

/// The tags that arrived for each output since its last frame, and not yet
/// taken by a frame.
///
/// The entries are kept in a list, one per output name: vstd proves lookups
/// in its hash maps only for keys whose hashing and equality it models, and
/// it models neither for `String`; over a list, every lookup, insertion and
/// removal below is proved against the map that `view` gives.
pub struct PendingTags {
    entries: Vec<(String, Vec<Tag>)>,
}

impl View for PendingTags {
    /// The tags of each output that has some pending.
    type V = Map<Seq<char>, Seq<Tag>>;

    closed spec fn view(&self) -> Map<Seq<char>, Seq<Tag>> {
        entry_map(self.entries@)
    }
}

/// The tags pending for `output` in `m`; none when it has no entry.
pub open spec fn pending_of(m: Map<Seq<char>, Seq<Tag>>, output: Seq<char>) -> Seq<Tag> {
    if m.dom().contains(output) {
        m[output]
    } else {
        Seq::empty()
    }
}

impl PendingTags {
    #[verifier::type_invariant]
    spec fn inv(self) -> bool {
        distinct_outputs(self.entries@)
    }

    /// No tags pending.
    pub fn new() -> (res: Self)
        ensures
            res@ == Map::<Seq<char>, Seq<Tag>>::empty(),
    {
        PendingTags { entries: Vec::new() }
    }

    fn find(entries: &Vec<(String, Vec<Tag>)>, output: &str) -> (res: Option<usize>)
        ensures
            match res {
                Some(i) => i < entries.len() && entries@[i as int].0@ == output@,
                None => forall|j: int| 0 <= j < entries.len() ==> (#[trigger] entries@[j]).0@ != output@,
            },
    {
        let mut i: usize = 0;
        while i < entries.len()
            invariant
                i <= entries.len(),
                forall|j: int| 0 <= j < i ==> (#[trigger] entries@[j]).0@ != output@,
            decreases entries.len() - i,
        {
            if same_text(entries[i].0.as_str(), output) {
                return Some(i);
            }
            i = i + 1;
        }
        None
    }

    /// Adds a tag to those pending for `output`.
    pub fn push_tag(&mut self, output: &str, tag: Tag)
        ensures
            final(self)@ == old(self)@.insert(output@, pending_of(old(self)@, output@).push(tag)),
    {
        proof {
            use_type_invariant(&*self);
        }
        let mut es: Vec<(String, Vec<Tag>)> = Vec::new();
        std::mem::swap(&mut es, &mut self.entries);
        let ghost old_es = es@;
        match Self::find(&es, output) {
            Some(i) => {
                proof {
                    lemma_entry_map_lookup(old_es, i as int);
                    lemma_entry_map_remove(old_es, i as int);
                }
                let (key, mut tags) = es.remove(i);
                tags.push(tag);
                let ghost rest = es@;
                es.push((key, tags));
                proof {
                    assert(es@.drop_last() =~= rest);
                    assert(distinct_outputs(es@)) by {
                        assert forall|a: int, b: int| 0 <= a < b < es@.len() implies (
                        #[trigger] es@[a]).0@ != (#[trigger] es@[b]).0@ by {
                            if b == es@.len() - 1 {
                                assert(es@[a] == rest[a]);
                            } else {
                                assert(es@[a] == rest[a] && es@[b] == rest[b]);
                            }
                        }
                    }
                    assert(entry_map(es@) =~= entry_map(old_es).insert(
                        output@,
                        pending_of(entry_map(old_es), output@).push(tag),
                    ));
                }
            },
            None => {
                proof {
                    lemma_entry_map_absent(old_es, output@);
                }
                let mut tags: Vec<Tag> = Vec::new();
                tags.push(tag);
                es.push((String::from_str(output), tags));
                proof {
                    assert(es@.drop_last() =~= old_es);
                    assert(tags@ =~= Seq::<Tag>::empty().push(tag));
                    assert(distinct_outputs(es@)) by {
                        assert forall|a: int, b: int| 0 <= a < b < es@.len() implies (
                        #[trigger] es@[a]).0@ != (#[trigger] es@[b]).0@ by {
                            assert(es@[a] == old_es[a]);
                            if b < es@.len() - 1 {
                                assert(es@[b] == old_es[b]);
                            }
                        }
                    }
                }
            },
        }
        self.entries = es;
    }

    /// Takes the tags pending for `output`, leaving none for it.
    pub fn take(&mut self, output: &str) -> (res: Option<Vec<Tag>>)
        ensures
            final(self)@ == old(self)@.remove(output@),
            match res {
                Some(v) => old(self)@.dom().contains(output@) && v@ == old(self)@[output@],
                None => !old(self)@.dom().contains(output@),
            },
    {
        proof {
            use_type_invariant(&*self);
        }
        let mut es: Vec<(String, Vec<Tag>)> = Vec::new();
        std::mem::swap(&mut es, &mut self.entries);
        let ghost old_es = es@;
        let res = match Self::find(&es, output) {
            Some(i) => {
                proof {
                    lemma_entry_map_lookup(old_es, i as int);
                    lemma_entry_map_remove(old_es, i as int);
                }
                let (_key, tags) = es.remove(i);
                Some(tags)
            },
            None => {
                proof {
                    lemma_entry_map_absent(old_es, output@);
                    assert(entry_map(old_es).remove(output@) =~= entry_map(old_es));
                }
                None
            },
        };
        self.entries = es;
        res
    }

    /// Handles one event of `output`'s tag IPC: a tag event adds its tag to
    /// those pending for the output; a layout event gives the layout it
    /// names; a frame takes the pending tags of the output and gives them
    /// sorted by number when one of them is shown; other events do nothing.
    pub fn step(&mut self, output: &str, event: OutputEvent) -> (res: Option<MangoEvent>)
        requires
            event matches OutputEvent::Tag { index, .. } ==> index < u32::MAX,
        ensures
            match event {
                OutputEvent::Tag { index, state, clients, focused } => {
                    &&& res is None
                    &&& final(self)@ == old(self)@.insert(
                        output@,
                        pending_of(old(self)@, output@).push(event_tag(index, state, clients, focused)),
                    )
                },
                OutputEvent::KbLayout(name) => {
                    &&& final(self)@ == old(self)@
                    &&& res matches Some(MangoEvent::Layout(l))
                    &&& l@ == name_layout(name@)
                },
                OutputEvent::Frame => {
                    &&& final(self)@ == old(self)@.remove(output@)
                    &&& if any_visible(pending_of(old(self)@, output@)) {
                        res matches Some(MangoEvent::Tags(r)) && is_stable_sort_of(
                            r@,
                            pending_of(old(self)@, output@),
                        )
                    } else {
                        res is None
                    }
                },
                OutputEvent::Other => final(self)@ == old(self)@ && res is None,
            },
    {
        match event {
            OutputEvent::Tag { index, state, clients, focused } => {
                self.push_tag(output, tag_from_event(index, state, clients, focused));
                None
            },
            OutputEvent::KbLayout(name) => Some(MangoEvent::Layout(LayoutState::from_name(name.as_str()))),
            OutputEvent::Frame => {
                match self.take(output) {
                    Some(tags) => match frame_tags(&tags) {
                        Some(sorted) => Some(MangoEvent::Tags(sorted)),
                        None => None,
                    },
                    None => None,
                }
            },
            OutputEvent::Other => None,
        }
    }
}

} // verus!
