//! The value tree built by the parser, and its canonical compact rendering.
use crate::utils::{lemma_seq_lt_trichotomy, seq_lt, str_lt};
use vstd::prelude::*;

verus! {

/// A parsed document value: a strictly tree-shaped, immutable sum type.
///
/// `Number` keeps the verbatim source text of the literal, never a binary
/// float, so no precision is lost. `Object` keeps its members as a list of
/// key/value pairs sorted strictly by key; the parser's insertion discipline
/// (last write wins on duplicates) establishes that order.
#[derive(Debug)]
pub enum Node {
    StringValue(String),
    Number(String),
    Boolean(bool),
    Null,
    Object(Vec<(String, Node)>),
    Array(Vec<Node>),
}

/// The mathematical model of a [`Node`]: text as character sequences,
/// an object as a sequence of key/value pairs, an array as a sequence of
/// values.
pub ghost enum Json {
    StringValue(Seq<char>),
    Number(Seq<char>),
    Boolean(bool),
    Null,
    Object(Seq<(Seq<char>, Json)>),
    Array(Seq<Json>),
}

/// The model of a [`Node`]: each text payload becomes its character
/// sequence, object members and array items become sequences of models.
pub open spec fn node_view(n: Node) -> Json
    decreases n, 1int,
    via node_view_decreases
{
    match n {
        Node::StringValue(s) => Json::StringValue(s@),
        Node::Number(s) => Json::Number(s@),
        Node::Boolean(b) => Json::Boolean(b),
        Node::Null => Json::Null,
        Node::Object(members) => Json::Object(member_views(members@)),
        Node::Array(items) => Json::Array(item_views(items@)),
    }
}

/// The models of a sequence of array items.
pub open spec fn item_views(items: Seq<Node>) -> Seq<Json>
    decreases items, 0int,
{
    if items.len() == 0 {
        Seq::empty()
    } else {
        seq![node_view(items[0])] + item_views(items.drop_first())
    }
}

/// The models of a sequence of object members.
pub open spec fn member_views(members: Seq<(String, Node)>) -> Seq<(Seq<char>, Json)>
    decreases members, 0int,
    via member_views_decreases
{
    if members.len() == 0 {
        Seq::empty()
    } else {
        seq![(members[0].0@, node_view(members[0].1))] + member_views(members.drop_first())
    }
}

#[via_fn]
proof fn node_view_decreases(n: Node) {
    match n {
        Node::Object(members) => {
            assert(decreases_to!(n => members));
            assert(decreases_to!(members => members@));
        },
        Node::Array(items) => {
            assert(decreases_to!(n => items));
            assert(decreases_to!(items => items@));
        },
        _ => {},
    }
}

#[via_fn]
proof fn member_views_decreases(members: Seq<(String, Node)>) {
    if members.len() > 0 {
        assert(decreases_to!(members => members[0]));
        assert(decreases_to!(members[0] => members[0].1));
    }
}

/// `item_views` maps the sequence elementwise.
pub proof fn lemma_item_views_index(items: Seq<Node>)
    ensures
        item_views(items).len() == items.len(),
        forall|i: int| 0 <= i < items.len() ==> item_views(items)[i] == node_view(items[i]),
    decreases items.len(),
{
    if items.len() > 0 {
        lemma_item_views_index(items.drop_first());
    }
}

/// Appending an item appends its model.
pub proof fn lemma_item_views_push(items: Seq<Node>, x: Node)
    ensures
        item_views(items.push(x)) == item_views(items).push(node_view(x)),
    decreases items.len(),
{
    if items.len() == 0 {
        assert(items.push(x).drop_first() =~= Seq::<Node>::empty());
        assert(item_views(Seq::<Node>::empty()) == Seq::<Json>::empty());
        assert(item_views(items.push(x)) =~= item_views(items).push(node_view(x)));
    } else {
        assert(items.push(x).drop_first() =~= items.drop_first().push(x));
        lemma_item_views_push(items.drop_first(), x);
        assert(item_views(items.push(x)) =~= item_views(items).push(node_view(x)));
    }
}

/// `member_views` maps the sequence elementwise.
pub proof fn lemma_member_views_index(members: Seq<(String, Node)>)
    ensures
        member_views(members).len() == members.len(),
        forall|i: int| 0 <= i < members.len() ==> member_views(members)[i] == (
            members[i].0@,
            node_view(members[i].1),
        ),
    decreases members.len(),
{
    if members.len() > 0 {
        lemma_member_views_index(members.drop_first());
    }
}

impl DeepView for Node {
    type V = Json;

    open spec fn deep_view(&self) -> Json {
        node_view(*self)
    }
}

/// Whether the member list is strictly sorted by key (so keys are unique).
pub open spec fn members_sorted(members: Seq<(Seq<char>, Json)>) -> bool {
    forall|i: int, j: int| 0 <= i < j < members.len() ==> seq_lt(members[i].0, members[j].0)
}

/// The member list after binding `key` to `value`: an existing binding of
/// the key is replaced in place (last write wins), otherwise the pair enters
/// at its ordered position.
pub open spec fn spec_insert_member(
    members: Seq<(Seq<char>, Json)>,
    key: Seq<char>,
    value: Json,
) -> Seq<(Seq<char>, Json)>
    decreases members.len(),
{
    if members.len() == 0 {
        seq![(key, value)]
    } else if seq_lt(key, members[0].0) {
        seq![(key, value)] + members
    } else if key == members[0].0 {
        seq![(key, value)] + members.drop_first()
    } else {
        seq![members[0]] + spec_insert_member(members.drop_first(), key, value)
    }
}

/// Inserting skips over any prefix whose keys all order before `key`.
proof fn lemma_spec_insert_member_split(
    members: Seq<(Seq<char>, Json)>,
    key: Seq<char>,
    value: Json,
    i: int,
)
    requires
        0 <= i <= members.len(),
        forall|j: int| 0 <= j < i ==> seq_lt(members[j].0, key),
    ensures
        spec_insert_member(members, key, value) == members.take(i) + spec_insert_member(
            members.skip(i),
            key,
            value,
        ),
    decreases i,
{
    if i == 0 {
        assert(members.skip(0) =~= members);
        assert(members.take(0) + spec_insert_member(members, key, value) =~= spec_insert_member(
            members,
            key,
            value,
        ));
    } else {
        lemma_seq_lt_trichotomy(key, members[0].0);
        let rest = members.drop_first();
        assert(forall|j: int| 0 <= j < i - 1 ==> seq_lt(#[trigger] rest[j].0, key));
        lemma_spec_insert_member_split(rest, key, value, i - 1);
        assert(rest.skip(i - 1) =~= members.skip(i));
        assert(seq![members[0]] + (rest.take(i - 1) + spec_insert_member(members.skip(i), key, value))
            =~= members.take(i) + spec_insert_member(members.skip(i), key, value));
    }
}

/// Binds `key` to `value` in a key-sorted member list: an existing binding
/// of the key is replaced in place (last write wins), otherwise the pair is
/// placed at its ordered position.
#[verifier::loop_isolation(false)]
pub fn insert_member(members: &mut Vec<(String, Node)>, key: String, value: Node)
    ensures
        member_views(final(members)@) == spec_insert_member(
            member_views(old(members)@),
            key@,
            node_view(value),
        ),
{
    let ghost d = member_views(old(members)@);
    proof {
        lemma_member_views_index(old(members)@);
    }
    let n = members.len();
    let mut i: usize = 0;
    while i < n
        invariant
            i <= n,
            members@ == old(members)@,
            forall|j: int| 0 <= j < i ==> seq_lt(#[trigger] d[j].0, key@),
        decreases n - i,
    {
        if !str_lt(members[i].0.as_str(), key.as_str()) {
            break;
        }
        i += 1;
    }
    proof {
        lemma_spec_insert_member_split(d, key@, node_view(value), i as int);
    }
    if i < n && members[i].0 == key {
        let ghost old_v = members@;
        members.remove(i);
        members.insert(i, (key, value));
        proof {
            lemma_member_views_index(members@);
            assert(members@ =~= old_v.update(i as int, (key, value)));
            assert(d.skip(i as int)[0] == d[i as int]);
            lemma_seq_lt_trichotomy(key@, d[i as int].0);
            assert(spec_insert_member(d.skip(i as int), key@, node_view(value)) == seq![
                (key@, node_view(value)),
            ] + d.skip(i as int).drop_first());
            assert(member_views(members@) =~= d.take(i as int) + (seq![(key@, node_view(value))]
                + d.skip(i as int).drop_first()));
        }
    } else {
        let ghost old_v = members@;
        members.insert(i, (key, value));
        proof {
            lemma_member_views_index(members@);
            if i < n {
                assert(d.skip(i as int)[0] == d[i as int]);
                lemma_seq_lt_trichotomy(key@, d[i as int].0);
            } else {
                assert(d.skip(i as int).len() == 0);
            }
            assert(spec_insert_member(d.skip(i as int), key@, node_view(value)) == seq![
                (key@, node_view(value)),
            ] + d.skip(i as int));
            assert(member_views(members@) =~= d.take(i as int) + (seq![(key@, node_view(value))]
                + d.skip(i as int)));
        }
    }
}

/// Whether two values are structurally equal: same kind, same text, same
/// members and items in the same order.
#[verifier::loop_isolation(false)]
pub fn node_eq(a: &Node, b: &Node) -> (r: bool)
    ensures
        r == (node_view(*a) == node_view(*b)),
    decreases a,
{
    match (a, b) {
        (Node::StringValue(x), Node::StringValue(y)) => *x == *y,
        (Node::Number(x), Node::Number(y)) => *x == *y,
        (Node::Boolean(x), Node::Boolean(y)) => *x == *y,
        (Node::Null, Node::Null) => true,
        (Node::Object(x), Node::Object(y)) => {
            proof {
                lemma_member_views_index(x@);
                lemma_member_views_index(y@);
            }
            if x.len() != y.len() {
                return false;
            }
            let n = x.len();
            let mut i: usize = 0;
            while i < n
                invariant
                    i <= n,
                    forall|j: int| 0 <= j < i ==> #[trigger] member_views(x@)[j] == member_views(
                        y@,
                    )[j],
                decreases n - i,
            {
                proof {
                    assert(member_views(x@)[i as int] == (x@[i as int].0@, node_view(
                        x@[i as int].1,
                    )));
                    assert(member_views(y@)[i as int] == (y@[i as int].0@, node_view(
                        y@[i as int].1,
                    )));
                }
                if !(x[i].0 == y[i].0) {
                    proof {
                        assert(member_views(x@)[i as int] != member_views(y@)[i as int]);
                    }
                    return false;
                }
                proof {
                    assert(decreases_to!(a => x));
                    assert(decreases_to!(x => x@));
                    assert(decreases_to!(x@ => x@[i as int]));
                    assert(decreases_to!(x@[i as int] => x@[i as int].1));
                }
                if !node_eq(&x[i].1, &y[i].1) {
                    proof {
                        assert(member_views(x@)[i as int] != member_views(y@)[i as int]);
                    }
                    return false;
                }
                i += 1;
            }
            proof {
                assert(member_views(x@) =~= member_views(y@));
            }
            true
        },
        (Node::Array(x), Node::Array(y)) => {
            proof {
                lemma_item_views_index(x@);
                lemma_item_views_index(y@);
            }
            if x.len() != y.len() {
                return false;
            }
            let n = x.len();
            let mut i: usize = 0;
            while i < n
                invariant
                    i <= n,
                    forall|j: int| 0 <= j < i ==> #[trigger] item_views(x@)[j] == item_views(
                        y@,
                    )[j],
                decreases n - i,
            {
                proof {
                    assert(item_views(x@)[i as int] == node_view(x@[i as int]));
                    assert(item_views(y@)[i as int] == node_view(y@[i as int]));
                    assert(decreases_to!(a => x));
                    assert(decreases_to!(x => x@));
                    assert(decreases_to!(x@ => x@[i as int]));
                }
                if !node_eq(&x[i], &y[i]) {
                    proof {
                        assert(item_views(x@)[i as int] != item_views(y@)[i as int]);
                    }
                    return false;
                }
                i += 1;
            }
            proof {
                assert(item_views(x@) =~= item_views(y@));
            }
            true
        },
        _ => false,
    }
}

impl PartialEq for Node {
    /// Two values are equal when their models are equal.
    fn eq(&self, other: &Node) -> (r: bool) {
        node_eq(self, other)
    }
}

impl vstd::std_specs::cmp::PartialEqSpecImpl for Node {
    open spec fn obeys_eq_spec() -> bool {
        true
    }

    open spec fn eq_spec(&self, other: &Node) -> bool {
        node_view(*self) == node_view(*other)
    }
}

/// The compact rendering of a value: a string is wrapped in double quotes
/// and emitted verbatim (no re-escaping), a number keeps its verbatim text,
/// booleans and null their keywords; arrays and objects comma-join their
/// parts with no inserted whitespace, members in stored (key) order.
pub open spec fn spec_to_json(v: Json) -> Seq<char>
    decreases v, 1int,
{
    match v {
        Json::StringValue(s) => seq!['"'] + s + seq!['"'],
        Json::Number(s) => s,
        Json::Boolean(b) => if b {
            "true"@
        } else {
            "false"@
        },
        Json::Null => "null"@,
        Json::Array(items) => seq!['['] + spec_join_values(items, 0) + seq![']'],
        Json::Object(members) => seq!['{'] + spec_join_members(members, 0) + seq!['}'],
    }
}

/// The comma-joined renderings of `items[i..]`.
pub open spec fn spec_join_values(items: Seq<Json>, i: int) -> Seq<char>
    decreases items, items.len() - i,
{
    if i < 0 || i >= items.len() {
        Seq::empty()
    } else if i == items.len() - 1 {
        spec_to_json(items[i])
    } else {
        spec_to_json(items[i]) + seq![','] + spec_join_values(items, i + 1)
    }
}

/// The comma-joined renderings of the members `members[i..]`, each as
/// `"key":value`.
pub open spec fn spec_join_members(members: Seq<(Seq<char>, Json)>, i: int) -> Seq<char>
    decreases members, members.len() - i,
{
    if i < 0 || i >= members.len() {
        Seq::empty()
    } else {
        let entry = seq!['"'] + members[i].0 + seq!['"', ':'] + spec_to_json(members[i].1);
        if i == members.len() - 1 {
            entry
        } else {
            entry + seq![','] + spec_join_members(members, i + 1)
        }
    }
}

impl Node {
    /// Renders the value as compact JSON text: total, never fails, no
    /// inserted whitespace; comments and the source's formatting are gone.
    #[verifier::loop_isolation(false)]
    pub fn to_json_string(&self) -> (r: String)
        ensures
            r@ == spec_to_json(self.deep_view()),
        decreases self,
    {
        match self {
            Node::StringValue(value) => {
                let mut out = "\"".to_owned();
                out.append(value.as_str());
                out.append("\"");
                proof {
                    reveal_strlit("\"");
                    assert(out@ =~= seq!['"'] + value@ + seq!['"']);
                }
                out
            },
            Node::Number(value) => value.clone(),
            Node::Boolean(value) => {
                if *value {
                    "true".to_owned()
                } else {
                    "false".to_owned()
                }
            },
            Node::Null => "null".to_owned(),
            Node::Array(items) => {
                let ghost d = item_views(items@);
                let mut out = "[".to_owned();
                proof {
                    lemma_item_views_index(items@);
                    reveal_strlit("[");
                    assert(out@ =~= seq!['[']);
                }
                let n = items.len();
                let mut i: usize = 0;
                while i < n
                    invariant
                        i <= n,
                        out@ + spec_join_values(d, i as int) == seq!['['] + spec_join_values(d, 0),
                    decreases n - i,
                {
                    let ghost out0 = out@;
                    proof {
                        assert(decreases_to!(items@ => items@[i as int]));
                        assert(decreases_to!(self => items@[i as int]));
                    }
                    let piece = items[i].to_json_string();
                    out.append(piece.as_str());
                    if i + 1 < n {
                        out.append(",");
                        proof {
                            reveal_strlit(",");
                            assert((out0 + piece@ + ","@) + spec_join_values(d, i + 1) =~= out0
                                + spec_join_values(d, i as int));
                        }
                    } else {
                        proof {
                            assert(out@ == out0 + spec_join_values(d, i as int));
                            assert(out@ + spec_join_values(d, i + 1) =~= out@);
                        }
                    }
                    i += 1;
                }
                out.append("]");
                proof {
                    reveal_strlit("]");
                    assert(spec_join_values(d, n as int) =~= Seq::<char>::empty());
                    assert(out@ =~= seq!['['] + spec_join_values(d, 0) + seq![']']);
                }
                out
            },
            Node::Object(members) => {
                let ghost d = member_views(members@);
                let mut out = "{".to_owned();
                proof {
                    lemma_member_views_index(members@);
                    reveal_strlit("{");
                    assert(out@ =~= seq!['{']);
                }
                let n = members.len();
                let mut i: usize = 0;
                while i < n
                    invariant
                        i <= n,
                        out@ + spec_join_members(d, i as int) == seq!['{'] + spec_join_members(
                            d,
                            0,
                        ),
                    decreases n - i,
                {
                    let ghost out0 = out@;
                    proof {
                        assert(decreases_to!(members@ => members@[i as int]));
                        assert(decreases_to!(members@[i as int] => members@[i as int].1));
                        assert(decreases_to!(self => members@[i as int].1));
                    }
                    out.append("\"");
                    out.append(members[i].0.as_str());
                    out.append("\"");
                    out.append(":");
                    let piece = members[i].1.to_json_string();
                    out.append(piece.as_str());
                    proof {
                        reveal_strlit("\"");
                        reveal_strlit(":");
                    }
                    let ghost entry = seq!['"'] + d[i as int].0 + seq!['"', ':'] + spec_to_json(
                        d[i as int].1,
                    );
                    proof {
                        assert(out@ =~= out0 + entry);
                    }
                    if i + 1 < n {
                        out.append(",");
                        proof {
                            reveal_strlit(",");
                            assert(out@ + spec_join_members(d, i + 1) =~= out0 + spec_join_members(
                                d,
                                i as int,
                            ));
                        }
                    } else {
                        proof {
                            assert(out@ == out0 + spec_join_members(d, i as int));
                            assert(out@ + spec_join_members(d, i + 1) =~= out@);
                        }
                    }
                    i += 1;
                }
                out.append("}");
                proof {
                    reveal_strlit("}");
                    assert(spec_join_members(d, n as int) =~= Seq::<char>::empty());
                    assert(out@ =~= seq!['{'] + spec_join_members(d, 0) + seq!['}']);
                }
                out
            },
        }
    }
}

} // verus!
