//! Chained lexical environments. Frames live in an arena; each frame owns a
//! local name-to-value table and an optional link to an outer frame created
//! earlier. `set` writes to the local frame only; `get` reads locally first
//! and then walks outward.

use vstd::prelude::*;

use crate::types::{MalData, SpecVal};

verus! {

struct Frame {
    outer: Option<usize>,
    entries: Vec<(String, MalData)>,
}

/// Ghost mirror of one frame.
pub struct SpecFrame {
    pub outer: Option<int>,
    pub entries: Seq<(Seq<char>, SpecVal)>,
}

/// The arena holding every frame created so far. Frame handles are indices
/// into it; an outer link always points to an earlier index, so chains are
/// finite and parents never reference children.
pub struct EnvArena {
    frames: Vec<Frame>,
}

/// A handle to one frame of an `EnvArena`.
#[derive(Clone, Copy)]
pub struct Env {
    id: usize,
}

/// Ghost view of one frame's local table.
pub open spec fn frame_view(entries: Seq<(String, MalData)>) -> Seq<(Seq<char>, SpecVal)>
    decreases entries,
{
    if entries.len() == 0 {
        Seq::empty()
    } else {
        frame_view(entries.drop_last()).push((entries.last().0@, entries.last().1@))
    }
}

/// The value bound to `name` in one local table: the latest write wins.
pub open spec fn entry_lookup(entries: Seq<(Seq<char>, SpecVal)>, name: Seq<char>) -> Option<
    SpecVal,
>
    decreases entries.len(),
{
    if entries.len() == 0 {
        None
    } else if entries.last().0 == name {
        Some(entries.last().1)
    } else {
        entry_lookup(entries.drop_last(), name)
    }
}

/// The value `get` returns for `name` starting at frame `id`: the local
/// table first, then the outer chain; `None` when no frame on the chain
/// binds the name.
pub open spec fn env_lookup(frames: Seq<SpecFrame>, id: int, name: Seq<char>) -> Option<SpecVal>
    decreases id,
{
    if !(0 <= id < frames.len()) {
        None
    } else {
        match entry_lookup(frames[id].entries, name) {
            Some(v) => Some(v),
            None => match frames[id].outer {
                Some(p) => if 0 <= p < id {
                    env_lookup(frames, p, name)
                } else {
                    None
                },
                None => None,
            },
        }
    }
}

/// The arena after a `set` of `name` to `value` on frame `id`: only that
/// frame's local table changes.
pub open spec fn env_set(
    frames: Seq<SpecFrame>,
    id: int,
    name: Seq<char>,
    value: SpecVal,
) -> Seq<SpecFrame> {
    if 0 <= id < frames.len() {
        frames.update(
            id,
            SpecFrame { outer: frames[id].outer, entries: frames[id].entries.push((name, value)) },
        )
    } else {
        frames
    }
}

/// Arena well-formedness: every outer link points to an earlier frame.
pub open spec fn arena_wf(frames: Seq<SpecFrame>) -> bool {
    forall|i: int|
        0 <= i < frames.len() ==> match #[trigger] frames[i].outer {
            Some(p) => 0 <= p < i,
            None => true,
        }
}

impl View for EnvArena {
    type V = Seq<SpecFrame>;

    closed spec fn view(&self) -> Seq<SpecFrame> {
        Seq::new(
            self.frames@.len(),
            |i: int|
                SpecFrame {
                    outer: match self.frames@[i].outer {
                        Some(p) => Some(p as int),
                        None => None,
                    },
                    entries: frame_view(self.frames@[i].entries@),
                },
        )
    }
}

impl EnvArena {
    /// An arena holding no frames yet.
    pub fn new() -> (a: EnvArena)
        ensures
            a@ == Seq::<SpecFrame>::empty(),
            arena_wf(a@),
    {
        let a = EnvArena { frames: Vec::new() };
        proof {
            assert(a@ =~= Seq::<SpecFrame>::empty());
        }
        a
    }

    /// How many frames exist.
    pub fn len(&self) -> (n: usize)
        ensures
            n == self@.len(),
    {
        self.frames.len()
    }

    /// Every arena reachable through this module's operations is
    /// well-formed.
    pub open spec fn wf(&self) -> bool {
        arena_wf(self@)
    }

    /// Discards every frame past `len`, releasing child frames whose
    /// dynamic extent has ended.
    pub fn truncate(&mut self, len: usize)
        requires
            old(self).wf(),
            len <= old(self)@.len(),
        ensures
            final(self).wf(),
            final(self)@ == old(self)@.take(len as int),
    {
        self.frames.truncate(len);
        proof {
            assert(self@ =~= old(self)@.take(len as int));
        }
    }
}

impl Env {
    /// The frame index this handle stands for.
    pub closed spec fn id(&self) -> int {
        self.id as int
    }

    /// A handle is usable with an arena that holds its frame.
    pub open spec fn valid(&self, arena: &EnvArena) -> bool {
        self.id() < arena@.len()
    }

    /// Creates an empty frame chained to `outer` (or a root frame when
    /// `outer` is `None`) and returns its handle.
    pub fn new(arena: &mut EnvArena, outer: Option<Env>) -> (e: Env)
        requires
            old(arena).wf(),
            match outer {
                Some(o) => o.valid(old(arena)),
                None => true,
            },
        ensures
            final(arena).wf(),
            e.valid(final(arena)),
            e.id() == old(arena)@.len(),
            final(arena)@ == old(arena)@.push(
                SpecFrame {
                    outer: match outer {
                        Some(o) => Some(o.id()),
                        None => None,
                    },
                    entries: Seq::empty(),
                },
            ),
    {
        let id = arena.frames.len();
        let outer_id = match outer {
            Some(o) => Some(o.id),
            None => None,
        };
        arena.frames.push(Frame { outer: outer_id, entries: Vec::new() });
        proof {
            assert(arena@ =~= old(arena)@.push(
                SpecFrame {
                    outer: match outer {
                        Some(o) => Some(o.id()),
                        None => None,
                    },
                    entries: Seq::empty(),
                },
            ));
        }
        Env { id }
    }

    /// Binds `name` to `value` in this frame's local table only.
    pub fn set(&self, arena: &mut EnvArena, name: String, value: MalData)
        requires
            old(arena).wf(),
            self.valid(old(arena)),
        ensures
            final(arena).wf(),
            final(arena)@ == env_set(old(arena)@, self.id(), name@, value@),
    {
        let ghost gname = name@;
        let ghost gvalue = value@;
        let ghost oldents = old(arena).frames@[self.id()].entries@;
        let frame = &mut arena.frames[self.id];
        frame.entries.push((name, value));
        proof {
            let newents = arena.frames@[self.id()].entries@;
            assert(newents.drop_last() =~= oldents);
            assert(newents.last().0@ == gname && newents.last().1@ == gvalue);
            assert(frame_view(newents) == frame_view(oldents).push((gname, gvalue)));
            assert(arena@ =~= env_set(old(arena)@, self.id(), gname, gvalue));
        }
    }

    /// Looks `name` up in this frame, then along the outer chain.
    pub fn get(&self, arena: &EnvArena, name: &str) -> (r: Option<MalData>)
        requires
            arena.wf(),
            self.valid(arena),
        ensures
            match r {
                Some(v) => env_lookup(arena@, self.id(), name@) == Some(v@),
                None => env_lookup(arena@, self.id(), name@) is None,
            },
    {
        let mut cur: usize = self.id;
        loop
            invariant
                arena.wf(),
                cur < arena@.len(),
                env_lookup(arena@, self.id(), name@) == env_lookup(arena@, cur as int, name@),
            decreases cur,
        {
            let frame = &arena.frames[cur];
            let found = frame_get(&frame.entries, name);
            match found {
                Some(v) => {
                    return Some(v);
                },
                None => {
                    match frame.outer {
                        Some(p) => {
                            cur = p;
                        },
                        None => {
                            return None;
                        },
                    }
                },
            }
        }
    }
}

/// Scans one local table from the latest entry back.
fn frame_get(entries: &Vec<(String, MalData)>, name: &str) -> (r: Option<MalData>)
    ensures
        match r {
            Some(v) => entry_lookup(frame_view(entries@), name@) == Some(v@),
            None => entry_lookup(frame_view(entries@), name@) is None,
        },
{
    proof {
        lemma_frame_view(entries@);
    }
    let n = entries.len();
    proof {
        assert(frame_view(entries@).take(n as int) =~= frame_view(entries@));
    }
    let mut k = n;
    while k > 0
        invariant
            n == entries@.len(),
            k <= n,
            frame_view(entries@).len() == n,
            forall|i: int|
                0 <= i < n ==> frame_view(entries@)[i] == (entries@[i].0@, entries@[i].1@),
            entry_lookup(frame_view(entries@), name@) == entry_lookup(
                frame_view(entries@).take(k as int),
                name@,
            ),
        decreases k,
    {
        k = k - 1;
        let hit = crate::types::str_eq(entries[k].0.as_str(), name);
        proof {
            let fv = frame_view(entries@);
            assert(fv.take(k + 1).last() == fv[k as int]);
            assert(fv.take(k + 1).drop_last() =~= fv.take(k as int));
        }
        if hit {
            return Some(entries[k].1.clone());
        }
    }
    proof {
        assert(frame_view(entries@).take(0) =~= Seq::<(Seq<char>, SpecVal)>::empty());
    }
    None
}

/// Writing a name and reading it back in the same frame yields the value
/// just written.
pub proof fn lemma_set_then_get(frames: Seq<SpecFrame>, id: int, name: Seq<char>, value: SpecVal)
    requires
        0 <= id < frames.len(),
    ensures
        env_lookup(env_set(frames, id, name, value), id, name) == Some(value),
{
    let after = env_set(frames, id, name, value);
    assert(after[id].entries.last() == (name, value));
}

/// A frame whose local table does not bind a name resolves that name
/// exactly as its outer frame does; in particular a fresh child sees every
/// binding of its parent, including ones written after the child was made.
pub proof fn lemma_child_inherits(
    frames: Seq<SpecFrame>,
    child: int,
    parent: int,
    name: Seq<char>,
)
    requires
        arena_wf(frames),
        0 <= child < frames.len(),
        frames[child].outer == Some(parent),
        entry_lookup(frames[child].entries, name) is None,
    ensures
        env_lookup(frames, child, name) == env_lookup(frames, parent, name),
{
}

/// A write into a later-created frame is invisible to every earlier frame:
/// `set` never walks outward, so a child binding cannot leak into its
/// parent or any other frame of the chain before it.
pub proof fn lemma_later_write_invisible(
    frames: Seq<SpecFrame>,
    writer: int,
    reader: int,
    name: Seq<char>,
    value: SpecVal,
    read_name: Seq<char>,
)
    requires
        arena_wf(frames),
        0 <= reader < writer < frames.len(),
    ensures
        env_lookup(env_set(frames, writer, name, value), reader, read_name) == env_lookup(
            frames,
            reader,
            read_name,
        ),
    decreases reader,
{
    let after = env_set(frames, writer, name, value);
    assert(after[reader].entries == frames[reader].entries);
    assert(after[reader].outer == frames[reader].outer);
    match frames[reader].outer {
        Some(p) => {
            lemma_later_write_invisible(frames, writer, p, name, value, read_name);
        },
        None => {},
    }
}

/// Scoping: with a root frame and a fresh child chained to it, a name
/// written in the root is readable through the child, and a name written
/// in the child changes nothing about what the root resolves.
pub proof fn lemma_scoping(
    frames: Seq<SpecFrame>,
    root: int,
    a: Seq<char>,
    va: SpecVal,
    b: Seq<char>,
    vb: SpecVal,
)
    requires
        arena_wf(frames),
        0 <= root < frames.len(),
    ensures
        ({
            let with_child = frames.push(SpecFrame { outer: Some(root), entries: Seq::empty() });
            let child = frames.len() as int;
            &&& env_lookup(env_set(with_child, root, a, va), child, a) == Some(va)
            &&& env_lookup(env_set(with_child, child, b, vb), root, b) == env_lookup(
                with_child,
                root,
                b,
            )
        }),
{
    let with_child = frames.push(SpecFrame { outer: Some(root), entries: Seq::empty() });
    let child = frames.len() as int;
    assert(arena_wf(with_child)) by {
        assert(forall|i: int|
            0 <= i < frames.len() ==> with_child[i].outer == #[trigger] frames[i].outer);
    }
    let after_a = env_set(with_child, root, a, va);
    assert(arena_wf(after_a)) by {
        assert(forall|i: int|
            0 <= i < with_child.len() ==> after_a[i].outer == #[trigger] with_child[i].outer);
    }
    assert(after_a[child].entries =~= Seq::<(Seq<char>, SpecVal)>::empty());
    lemma_child_inherits(after_a, child, root, a);
    lemma_set_then_get(with_child, root, a, va);
    lemma_later_write_invisible(with_child, child, root, b, vb, b);
}

/// `frame_view` is the element-wise image of its argument.
pub proof fn lemma_frame_view(entries: Seq<(String, MalData)>)
    ensures
        frame_view(entries).len() == entries.len(),
        forall|i: int|
            0 <= i < entries.len() ==> frame_view(entries)[i] == (entries[i].0@, entries[i].1@),
    decreases entries.len(),
{
    if entries.len() > 0 {
        lemma_frame_view(entries.drop_last());
        assert(frame_view(entries) == frame_view(entries.drop_last()).push(
            (entries.last().0@, entries.last().1@),
        ));
        assert forall|i: int| 0 <= i < entries.len() implies frame_view(entries)[i] == (
        entries[i].0@,
        entries[i].1@,
        ) by {
            if i < entries.len() - 1 {
                assert(frame_view(entries)[i] == frame_view(entries.drop_last())[i]);
                assert(entries.drop_last()[i] == entries[i]);
            } else {
                assert(entries[i] == entries.last());
            }
        }
    }
}

} // verus!
