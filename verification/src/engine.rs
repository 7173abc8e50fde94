//! The traversal engine: a walk over a JSON value in pre-order that keeps
//! its place on an explicit stack of frames and hands out one line at a time.

use crate::format::{render_container_open, render_scalar, ContainerKind};
use crate::literal::push_bytes;
use crate::model::{assignment, child_lines, concat, gron_lines, gron_text, lemma_concat_first};
use crate::path::PathBuffer;
use crate::value::{Json, Object, Value};
use crate::ToGron;
use vstd::prelude::*;
use vstd::utf8::encode_utf8;

verus! {

/// A container whose children are being enumerated.
enum Container<'a> {
    Array(&'a Vec<Value>),
    Object(&'a Object),
}

impl<'a> Container<'a> {
    /// The container as a value of the model.
    spec fn json(self) -> Json {
        match self {
            Container::Array(items) => Value::Array(*items)@,
            Container::Object(object) => Value::Object(*object)@,
        }
    }

    /// The number of children.
    fn len(&self) -> (n: usize)
        ensures
            n == self.json().child_count(),
    {
        match self {
            Container::Array(items) => items.len(),
            Container::Object(object) => object.len(),
        }
    }

    /// Extends `path` by the segment of the child at position `i` and returns
    /// the child.
    fn descend(&self, i: usize, path: &mut PathBuffer) -> (child: &'a Value)
        requires
            i < self.json().child_count(),
        ensures
            child@ == self.json().child(i as int),
            final(path)@ == old(path)@ + self.json().segment(i as int),
    {
        match self {
            Container::Array(items) => {
                path.append_array_index(i);
                &items[i]
            },
            Container::Object(object) => {
                let (key, value) = object.entry(i);
                path.append_object_key(key);
                value
            },
        }
    }
}

/// A container that still has children to visit: where its enumeration
/// stands, and the length of the container's own path.
struct Frame<'a> {
    container: Container<'a>,
    next: usize,
    saved_len: usize,
}

/// Whether the saved lengths grow from the bottom of the stack to its top
/// and none exceeds `path_len`.
spec fn saved_lengths_nest(stack: Seq<Frame<'_>>, path_len: int) -> bool {
    &&& forall|k: int| 0 <= k < stack.len() ==> (#[trigger] stack[k]).saved_len <= path_len
    &&& forall|k: int, l: int|
        0 <= k <= l < stack.len() ==> (#[trigger] stack[k]).saved_len <= (
        #[trigger] stack[l]).saved_len
}

/// The lines that the frames of `stack` still owe, the top frame first. The
/// path of a frame's container is what `path` holds up to the saved length.
spec fn pending(stack: Seq<Frame<'_>>, path: Seq<u8>) -> Seq<Seq<u8>>
    decreases stack.len(),
{
    if stack.len() == 0 {
        Seq::empty()
    } else {
        let top = stack.last();
        child_lines(path.take(top.saved_len as int), top.container.json(), top.next as nat)
            + pending(stack.drop_last(), path)
    }
}

/// Two paths that agree up to the largest saved length give the same lines.
proof fn lemma_pending_prefix(stack: Seq<Frame<'_>>, p: Seq<u8>, q: Seq<u8>, m: int)
    requires
        0 <= m <= p.len(),
        m <= q.len(),
        p.take(m) == q.take(m),
        forall|k: int| 0 <= k < stack.len() ==> (#[trigger] stack[k]).saved_len <= m,
    ensures
        pending(stack, p) == pending(stack, q),
    decreases stack.len(),
{
    if stack.len() > 0 {
        let n = stack.last().saved_len as int;
        assert(p.take(n) =~= p.take(m).take(n));
        assert(q.take(n) =~= q.take(m).take(n));
        lemma_pending_prefix(stack.drop_last(), p, q, m);
    }
}

/// Renders the line of `value` at the path that `path` holds and, if `value`
/// is a container, pushes a frame for its children.
fn visit<'a>(path: &PathBuffer, stack: &mut Vec<Frame<'a>>, value: &'a Value) -> (line: Vec<u8>)
    requires
        saved_lengths_nest(old(stack)@, path@.len() as int),
    ensures
        saved_lengths_nest(final(stack)@, path@.len() as int),
        line@ == assignment(path@, value@.literal()),
        pending(final(stack)@, path@) == child_lines(path@, value@, 0) + pending(
            old(stack)@,
            path@,
        ),
{
    let ghost below = stack@;
    match value {
        Value::Array(items) => {
            let line = render_container_open(path.as_bytes(), ContainerKind::Array);
            stack.push(Frame { container: Container::Array(items), next: 0, saved_len: path.len() });
            proof {
                assert(stack@.drop_last() =~= below);
                assert(path@.take(path@.len() as int) =~= path@);
            }
            line
        },
        Value::Object(object) => {
            let line = render_container_open(path.as_bytes(), ContainerKind::Object);
            stack.push(
                Frame { container: Container::Object(object), next: 0, saved_len: path.len() },
            );
            proof {
                assert(stack@.drop_last() =~= below);
                assert(path@.take(path@.len() as int) =~= path@);
            }
            line
        },
        _ => {
            let line = render_scalar(path.as_bytes(), value);
            proof {
                assert(child_lines(path@, value@, 0) =~= Seq::empty());
                assert(Seq::<Seq<u8>>::empty() + pending(below, path@) =~= pending(below, path@));
            }
            line
        },
    }
}

/// Drops the frames that have no child left, from the top of the stack down,
/// and visits the next child of the first frame that has one: the path is
/// cut back to that frame's container and extended by the child's segment.
/// Returns the child's line, or `None` when the stack has run empty.
fn advance<'a>(path: &mut PathBuffer, stack: &mut Vec<Frame<'a>>) -> (line: Option<Vec<u8>>)
    requires
        saved_lengths_nest(old(stack)@, old(path)@.len() as int),
    ensures
        saved_lengths_nest(final(stack)@, final(path)@.len() as int),
        match line {
            Some(text) => {
                &&& pending(old(stack)@, old(path)@).len() > 0
                &&& text@ == pending(old(stack)@, old(path)@)[0]
                &&& pending(final(stack)@, final(path)@) == pending(
                    old(stack)@,
                    old(path)@,
                ).drop_first()
            },
            None => {
                &&& pending(old(stack)@, old(path)@).len() == 0
                &&& final(stack)@.len() == 0
            },
        },
{
    let ghost owed = pending(stack@, path@);
    loop
        invariant
            path@ == old(path)@,
            saved_lengths_nest(stack@, path@.len() as int),
            pending(stack@, path@) == owed,
            owed == pending(old(stack)@, old(path)@),
        decreases stack@.len(),
    {
        let ghost above = stack@;
        let ghost full = path@;
        match stack.pop() {
            None => {
                return None;
            },
            Some(frame) => {
                let ghost below = above.drop_last();
                assert(stack@ =~= below);
                assert(frame == above.last());
                let Frame { container, next, saved_len } = frame;
                if next < container.len() {
                    path.truncate_to(saved_len);
                    let ghost base = path@;
                    let child = container.descend(next, path);
                    stack.push(Frame { container, next: next + 1, saved_len });
                    proof {
                        let advanced = stack@;
                        assert(advanced.drop_last() =~= below);
                        assert(path@.take(saved_len as int) =~= base);
                        assert(base =~= full.take(saved_len as int));
                        assert(base.take(saved_len as int) =~= base);
                        lemma_pending_prefix(below, path@, full, saved_len as int);
                        assert(saved_lengths_nest(advanced, path@.len() as int)) by {
                            assert forall|k: int| 0 <= k < advanced.len() implies (
                            #[trigger] advanced[k]).saved_len <= saved_len by {
                                if k < below.len() {
                                    assert(advanced[k] == above[k]);
                                }
                            }
                            assert forall|k: int, l: int|
                                0 <= k <= l < advanced.len() implies (
                            #[trigger] advanced[k]).saved_len <= (
                            #[trigger] advanced[l]).saved_len by {
                                if k < below.len() {
                                    assert(advanced[k] == above[k]);
                                }
                                if l < below.len() {
                                    assert(advanced[l] == above[l]);
                                }
                            }
                        }
                    }
                    let line = visit(path, stack, child);
                    proof {
                        let json = container.json();
                        assert(owed == child_lines(base, json, next as nat) + pending(below, full));
                        assert(child_lines(base, json, next as nat) == gron_lines(
                            base + json.segment(next as int),
                            child@,
                        ) + child_lines(base, json, (next + 1) as nat));
                        assert(pending(stack@, path@) =~= owed.drop_first());
                    }
                    return Some(line);
                }
                proof {
                    assert(child_lines(full.take(saved_len as int), container.json(), next as nat)
                        =~= Seq::empty());
                    assert(owed =~= pending(below, full));
                    assert(saved_lengths_nest(below, full.len() as int)) by {
                        assert forall|k: int| 0 <= k < below.len() implies (#[trigger] below[k])
                            == above[k] by {}
                    }
                }
            },
        }
    }
}

/// A walk over one JSON value, which hands out the lines one at a time. It
/// owns the path buffer and the stack; the value is only read.
pub struct Traversal<'a> {
    path: PathBuffer,
    stack: Vec<Frame<'a>>,
    root: Option<&'a Value>,
}

impl<'a> Traversal<'a> {
    /// Until the root has been visited the stack is empty, and the saved
    /// lengths of the frames nest within the path.
    #[verifier::type_invariant]
    spec fn wf(&self) -> bool {
        &&& self.root is Some ==> self.stack@.len() == 0
        &&& saved_lengths_nest(self.stack@, self.path@.len() as int)
    }

    /// The lines that the walk has yet to hand out, in order.
    pub closed spec fn remaining(&self) -> Seq<Seq<u8>> {
        match self.root {
            Some(root) => gron_lines(self.path@, root@),
            None => pending(self.stack@, self.path@),
        }
    }

    /// A walk over `root` under the root name `prefix`, with every line
    /// still to come.
    pub fn new(prefix: &str, root: &'a Value) -> (walk: Traversal<'a>)
        ensures
            walk.remaining() == gron_lines(encode_utf8(prefix@), root@),
    {
        Traversal { path: PathBuffer::new(prefix), stack: Vec::new(), root: Some(root) }
    }

    /// Hands out the next line, or `None` when the walk is over.
    pub fn next_line(&mut self) -> (line: Option<Vec<u8>>)
        ensures
            match line {
                Some(text) => {
                    &&& old(self).remaining().len() > 0
                    &&& text@ == old(self).remaining()[0]
                    &&& final(self).remaining() == old(self).remaining().drop_first()
                },
                None => {
                    &&& old(self).remaining().len() == 0
                    &&& final(self).remaining().len() == 0
                },
            },
    {
        proof {
            use_type_invariant(&*self);
        }
        // The state is taken out for the step and put back after it: what
        // `self` holds is a whole walk at every moment.
        let mut taken = Traversal { path: PathBuffer::new(""), stack: Vec::new(), root: None };
        core::mem::swap(self, &mut taken);
        let Traversal { mut path, mut stack, root } = taken;
        let line = match root {
            Some(value) => {
                let line = visit(&path, &mut stack, value);
                proof {
                    assert(pending(Seq::<Frame<'a>>::empty(), path@) =~= Seq::empty());
                    assert(pending(stack@, path@) =~= gron_lines(path@, value@).drop_first());
                }
                Some(line)
            },
            None => advance(&mut path, &mut stack),
        };
        *self = Traversal { path, stack, root: None };
        line
    }
}

impl ToGron for Value {
    open spec fn json(&self) -> Json {
        self@
    }

    /// Appends the lines for this value to `out`, one after another.
    fn to_gron(&self, out: &mut Vec<u8>, prefix: &str) {
        let mut walk = Traversal::new(prefix, self);
        let ghost text = gron_text(encode_utf8(prefix@), self@);
        loop
            invariant
                out@ + concat(walk.remaining()) == old(out)@ + text,
            ensures
                out@ == old(out)@ + text,
            decreases walk.remaining().len(),
        {
            let ghost owed = walk.remaining();
            match walk.next_line() {
                Some(line) => {
                    proof {
                        lemma_concat_first(owed);
                        assert(out@ + (owed[0] + concat(owed.drop_first())) =~= (out@ + owed[0])
                            + concat(owed.drop_first()));
                    }
                    push_bytes(out, line.as_slice());
                },
                None => {
                    proof {
                        assert(out@ + concat(owed) =~= out@);
                    }
                    break ;
                },
            }
        }
    }
}

} // verus!
