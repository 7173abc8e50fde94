//! What holds of the lines of every value: how many there are, where the
//! line of each node stands, and what path it carries.

use crate::model::{array_text, assignment, child_lines, concat, gron_lines, gron_text, object_text};
use crate::order::{lemma_precedes_irreflexive, lemma_precedes_transitive, precedes};
use crate::value::{keys_ascending, Json};
use vstd::prelude::*;

verus! {

/// The number of lines that `json` gives as a root.
pub open spec fn line_count(json: Json) -> nat {
    gron_lines(Seq::empty(), json).len()
}

/// The number of lines that the children of `json` before position `i` give,
/// each taken as a root.
pub open spec fn lines_before(json: Json, i: int) -> nat
    decreases i,
{
    if i <= 0 {
        0
    } else {
        lines_before(json, i - 1) + line_count(json.child(i - 1))
    }
}

/// Whether `address` leads from `json` to a node: each of its elements is
/// the position of a child of the node reached so far.
pub open spec fn valid_address(json: Json, address: Seq<int>) -> bool
    decreases address.len(),
{
    address.len() == 0 || (0 <= address[0] < json.child_count() && valid_address(
        json.child(address[0]),
        address.drop_first(),
    ))
}

/// The node that `address` leads to.
pub open spec fn node_at(json: Json, address: Seq<int>) -> Json
    decreases address.len(),
{
    if address.len() == 0 {
        json
    } else {
        node_at(json.child(address[0]), address.drop_first())
    }
}

/// The path of the node that `address` leads to, where `json` has the path
/// `path`: one segment more for each step of the address, in order.
pub open spec fn path_at(path: Seq<u8>, json: Json, address: Seq<int>) -> Seq<u8>
    decreases address.len(),
{
    if address.len() == 0 {
        path
    } else {
        path_at(
            path + json.segment(address[0]),
            json.child(address[0]),
            address.drop_first(),
        )
    }
}

/// The position, among the lines of `json`, of the line of the node that
/// `address` leads to.
pub open spec fn line_index(json: Json, address: Seq<int>) -> nat
    decreases address.len(),
{
    if address.len() == 0 {
        0
    } else {
        1 + lines_before(json, address[0]) + line_index(
            json.child(address[0]),
            address.drop_first(),
        )
    }
}

/// A scalar gives exactly one line: its path, ` = `, its literal and a
/// newline.
pub proof fn lemma_scalar_one_line(prefix: Seq<u8>, json: Json)
    requires
        !json.is_container(),
    ensures
        gron_lines(prefix, json) == seq![assignment(prefix, json.literal())],
        gron_text(prefix, json) == assignment(prefix, json.literal()),
{
    lemma_childless_one_line(prefix, json);
}

/// An empty array gives the one line that announces it, and so does an empty
/// object.
pub proof fn lemma_empty_container_one_line(prefix: Seq<u8>, json: Json)
    requires
        json.is_container(),
        json.child_count() == 0,
    ensures
        gron_text(prefix, json) == assignment(prefix, json.literal()),
        json is Array ==> json.literal() == array_text(),
        json is Object ==> json.literal() == object_text(),
{
    lemma_childless_one_line(prefix, json);
}

/// A value without children gives its own line and no other.
proof fn lemma_childless_one_line(prefix: Seq<u8>, json: Json)
    requires
        json.child_count() == 0,
    ensures
        gron_lines(prefix, json) == seq![assignment(prefix, json.literal())],
        gron_text(prefix, json) == assignment(prefix, json.literal()),
{
    let line = assignment(prefix, json.literal());
    assert(child_lines(prefix, json, 0) =~= Seq::empty());
    assert(gron_lines(prefix, json) =~= seq![line]);
    assert(seq![line].drop_last() =~= Seq::<Seq<u8>>::empty());
    assert(concat(seq![line].drop_last()) =~= Seq::<u8>::empty());
    assert(concat(seq![line]) =~= line);
}

/// The number of lines does not depend on the path.
pub proof fn lemma_count_any_path(p: Seq<u8>, q: Seq<u8>, json: Json)
    ensures
        gron_lines(p, json).len() == gron_lines(q, json).len(),
    decreases json, json.child_count() + 1,
{
    lemma_child_count_any_path(p, q, json, 0);
}

proof fn lemma_child_count_any_path(p: Seq<u8>, q: Seq<u8>, json: Json, from: nat)
    ensures
        child_lines(p, json, from).len() == child_lines(q, json, from).len(),
    decreases json, json.child_count() - from,
{
    if from < json.child_count() {
        let i = from as int;
        lemma_count_any_path(p + json.segment(i), q + json.segment(i), json.child(i));
        lemma_child_count_any_path(p, q, json, from + 1);
    }
}

/// The lines of the children from `from` on are as many as these children
/// give, each taken as a root.
proof fn lemma_child_lines_len(path: Seq<u8>, json: Json, from: nat)
    requires
        from <= json.child_count(),
    ensures
        child_lines(path, json, from).len() == lines_before(json, json.child_count() as int)
            - lines_before(json, from as int),
    decreases json.child_count() - from,
{
    lemma_lines_before_grows(json, from as int, json.child_count() as int);
    if from < json.child_count() {
        let i = from as int;
        lemma_count_any_path(path + json.segment(i), Seq::empty(), json.child(i));
        lemma_child_lines_len(path, json, from + 1);
    }
}

/// The count of the lines before a position grows with the position.
proof fn lemma_lines_before_grows(json: Json, i: int, j: int)
    requires
        i <= j,
    ensures
        lines_before(json, i) <= lines_before(json, j),
    decreases j - i,
{
    if i < j {
        lemma_lines_before_grows(json, i, j - 1);
    }
}

/// The number of lines is one, for the container's own line, and for each
/// child the number of lines that the child gives as a root.
pub proof fn lemma_line_count(path: Seq<u8>, json: Json)
    ensures
        gron_lines(path, json).len() == 1 + lines_before(json, json.child_count() as int),
        gron_lines(path, json).len() == line_count(json),
{
    lemma_child_lines_len(path, json, 0);
    lemma_count_any_path(path, Seq::empty(), json);
}

/// Among the lines of the children from `from` on, the lines of the child at
/// position `i` stand together, behind those of the children before it.
proof fn lemma_child_block(path: Seq<u8>, json: Json, from: nat, i: int)
    requires
        from <= i < json.child_count(),
    ensures
        lines_before(json, from as int) <= lines_before(json, i),
        lines_before(json, i + 1) - lines_before(json, from as int) <= child_lines(
            path,
            json,
            from,
        ).len(),
        child_lines(path, json, from).subrange(
            lines_before(json, i) - lines_before(json, from as int),
            lines_before(json, i + 1) - lines_before(json, from as int),
        ) == gron_lines(path + json.segment(i), json.child(i)),
    decreases i - from,
{
    let first = gron_lines(path + json.segment(from as int), json.child(from as int));
    let rest = child_lines(path, json, from + 1);
    let base = lines_before(json, from as int);
    lemma_count_any_path(path + json.segment(from as int), Seq::empty(), json.child(from as int));
    lemma_lines_before_grows(json, from as int, i);
    lemma_lines_before_grows(json, i + 1, json.child_count() as int);
    lemma_child_lines_len(path, json, from);
    assert(child_lines(path, json, from) == first + rest);
    assert(lines_before(json, from as int + 1) == base + first.len());
    if i == from {
        assert((first + rest).subrange(0, first.len() as int) =~= first);
    } else {
        lemma_child_block(path, json, from + 1, i);
        let lo = lines_before(json, i) - lines_before(json, from as int + 1);
        let hi = lines_before(json, i + 1) - lines_before(json, from as int + 1);
        assert((first + rest).subrange(first.len() + lo, first.len() + hi) =~= rest.subrange(
            lo,
            hi,
        ));
    }
}

/// The line of each node carries the node's path: the root name and one
/// segment for each step from the root to the node, in that order. It stands
/// at the node's position in pre-order and binds the path to the node's
/// literal.
pub proof fn lemma_line_at_address(prefix: Seq<u8>, json: Json, address: Seq<int>)
    requires
        valid_address(json, address),
    ensures
        line_index(json, address) < gron_lines(prefix, json).len(),
        gron_lines(prefix, json)[line_index(json, address) as int] == assignment(
            path_at(prefix, json, address),
            node_at(json, address).literal(),
        ),
    decreases address.len(),
{
    if address.len() > 0 {
        let i = address[0];
        let rest = address.drop_first();
        let child = json.child(i);
        let block = gron_lines(prefix + json.segment(i), child);
        let below = child_lines(prefix, json, 0);
        lemma_line_at_address(prefix + json.segment(i), child, rest);
        lemma_child_block(prefix, json, 0, i);
        let inner = line_index(child, rest) as int;
        let lo = lines_before(json, i) as int;
        let hi = lines_before(json, i + 1) as int;
        assert(below.subrange(lo, hi) == block);
        assert(below.subrange(lo, hi)[inner] == below[lo + inner]);
        assert(gron_lines(prefix, json)[1 + lo + inner] == below[lo + inner]);
    }
}

/// The position before which the lines of the children are at most `m`, and
/// up to which they are more.
proof fn lemma_find_child(json: Json, m: int, upto: int) -> (i: int)
    requires
        0 <= m < lines_before(json, upto),
    ensures
        0 <= i < upto,
        lines_before(json, i) <= m < lines_before(json, i + 1),
    decreases upto,
{
    if m >= lines_before(json, upto - 1) {
        upto - 1
    } else {
        lemma_find_child(json, m, upto - 1)
    }
}

/// Every line is the line of a node: for each position among the lines there
/// is an address that leads to the node whose line stands there.
pub proof fn lemma_address_of_line(prefix: Seq<u8>, json: Json, k: int) -> (address: Seq<int>)
    requires
        0 <= k < gron_lines(prefix, json).len(),
    ensures
        valid_address(json, address),
        line_index(json, address) == k,
    decreases json,
{
    if k == 0 {
        Seq::empty()
    } else {
        lemma_line_count(prefix, json);
        let count = json.child_count() as int;
        let i = lemma_find_child(json, k - 1, count);
        let child = json.child(i);
        lemma_line_count(prefix + json.segment(i), child);
        let inner = lemma_address_of_line(
            prefix + json.segment(i),
            child,
            k - 1 - lines_before(json, i),
        );
        let address = seq![i] + inner;
        assert(address.drop_first() =~= inner);
        address
    }
}

/// An address in two parts leads through the node of the first part, and the
/// positions of the lines add up.
pub proof fn lemma_address_in_parts(json: Json, first: Seq<int>, second: Seq<int>)
    requires
        valid_address(json, first + second),
    ensures
        valid_address(json, first),
        valid_address(node_at(json, first), second),
        node_at(json, first + second) == node_at(node_at(json, first), second),
        line_index(json, first + second) == line_index(json, first) + line_index(
            node_at(json, first),
            second,
        ),
    decreases first.len(),
{
    if first.len() == 0 {
        assert(first + second =~= second);
    } else {
        assert((first + second).drop_first() =~= first.drop_first() + second);
        lemma_address_in_parts(json.child(first[0]), first.drop_first(), second);
    }
}

/// A container's own line comes before the lines of all its descendants.
pub proof fn lemma_container_first(json: Json, container: Seq<int>, below: Seq<int>)
    requires
        valid_address(json, container + below),
        below.len() > 0,
    ensures
        line_index(json, container) < line_index(json, container + below),
{
    lemma_address_in_parts(json, container, below);
}

/// Of two children of one container, every line of the earlier child and its
/// descendants comes before every line of the later child and its
/// descendants.
pub proof fn lemma_siblings_in_order(
    json: Json,
    container: Seq<int>,
    a: int,
    b: int,
    under_a: Seq<int>,
    under_b: Seq<int>,
)
    requires
        a < b,
        valid_address(json, container + (seq![a] + under_a)),
        valid_address(json, container + (seq![b] + under_b)),
    ensures
        line_index(json, container + (seq![a] + under_a)) < line_index(
            json,
            container + (seq![b] + under_b),
        ),
{
    let node = node_at(json, container);
    lemma_address_in_parts(json, container, seq![a] + under_a);
    lemma_address_in_parts(json, container, seq![b] + under_b);
    assert((seq![a] + under_a).drop_first() =~= under_a);
    assert((seq![b] + under_b).drop_first() =~= under_b);
    lemma_line_at_address(Seq::empty(), node.child(a), under_a);
    lemma_lines_before_grows(node, a + 1, b);
}

/// In an object whose keys ascend, the lines of a member come before the
/// lines of every member with a later key.
pub proof fn lemma_members_by_key(entries: Seq<(Seq<u8>, Json)>, a: int, b: int)
    requires
        keys_ascending(entries),
        0 <= a < entries.len(),
        0 <= b < entries.len(),
        precedes(entries[a].0, entries[b].0),
    ensures
        line_index(Json::Object(entries), seq![a]) < line_index(Json::Object(entries), seq![b]),
{
    let json = Json::Object(entries);
    if a >= b {
        if a > b {
            assert(precedes(entries[b].0, entries[a].0));
            lemma_precedes_transitive(entries[a].0, entries[b].0, entries[a].0);
        }
        lemma_precedes_irreflexive(entries[a].0);
    }
    assert(seq![a].drop_first() =~= Seq::<int>::empty());
    assert(seq![b].drop_first() =~= Seq::<int>::empty());
    assert(line_index(json.child(a), Seq::empty()) == 0);
    assert(line_index(json.child(b), Seq::empty()) == 0);
    assert(lines_before(json, a + 1) == lines_before(json, a) + line_count(json.child(a)));
    lemma_lines_before_grows(json, a + 1, b);
}

} // verus!
