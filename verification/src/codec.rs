//! A byte codec for the todo list, so that the whole list can be written to a
//! persistent byte store after every mutation and reloaded unchanged at
//! startup.
//!
//! The format is private to this application (the store key is never shared),
//! so a simple length-prefixed layout is used. A list is the item count as a
//! little-endian `u64` followed by the items in order; an item is its title,
//! its description (each as a little-endian `u64` byte length followed by the
//! UTF-8 bytes), one byte for the completion flag, and the identifier as a
//! little-endian `u64`.

use vstd::prelude::*;
use vstd::bytes::*;
use vstd::slice::*;
use vstd::utf8::*;

use crate::state::{Todo, TodoView};

verus! {

/// The encoding of one string field: byte length, then UTF-8 bytes.
pub open spec fn spec_encode_str(s: Seq<char>) -> Seq<u8> {
    spec_u64_to_le_bytes(encode_utf8(s).len() as u64) + encode_utf8(s)
}

/// The encoding of one todo record, fields in order: title, description,
/// completed, id.
pub open spec fn spec_encode_todo(t: TodoView) -> Seq<u8> {
    spec_encode_str(t.title) + spec_encode_str(t.description) + seq![
        if t.completed {
            1u8
        } else {
            0u8
        },
    ] + spec_u64_to_le_bytes(t.id)
}

/// The encodings of the items of a list, concatenated in order.
pub open spec fn spec_encode_todos(l: Seq<TodoView>) -> Seq<u8>
    decreases l.len(),
{
    if l.len() == 0 {
        Seq::<u8>::empty()
    } else {
        spec_encode_todo(l[0]) + spec_encode_todos(l.drop_first())
    }
}

/// The encoding of a whole list: the item count, then the items.
pub open spec fn spec_encode_list(l: Seq<TodoView>) -> Seq<u8> {
    spec_u64_to_le_bytes(l.len() as u64) + spec_encode_todos(l)
}

/// True when a string's UTF-8 byte length fits its length prefix.
pub open spec fn encodable_str(s: Seq<char>) -> bool {
    encode_utf8(s).len() <= u64::MAX
}

/// True when both string fields of a record fit their length prefixes.
pub open spec fn encodable_todo(t: TodoView) -> bool {
    encodable_str(t.title) && encodable_str(t.description)
}

/// True when a list fits the format: the count and every string length fit
/// in a `u64`. Every list held in actual memory does.
pub open spec fn encodable(l: Seq<TodoView>) -> bool {
    l.len() <= u64::MAX && forall|i: int| 0 <= i < l.len() ==> encodable_todo(l[i])
}

/// Appending one more item extends the concatenated item encodings by that
/// item's encoding.
proof fn lemma_encode_todos_snoc(l: Seq<TodoView>, t: TodoView)
    ensures
        spec_encode_todos(l.push(t)) == spec_encode_todos(l) + spec_encode_todo(t),
    decreases l.len(),
{
    if l.len() == 0 {
        assert(l.push(t)[0] == t);
        assert(l.push(t).drop_first() =~= Seq::<TodoView>::empty());
        assert(spec_encode_todos(l.push(t).drop_first()) == Seq::<u8>::empty());
        assert(spec_encode_todos(l) == Seq::<u8>::empty());
        assert(spec_encode_todos(l.push(t)) =~= spec_encode_todos(l) + spec_encode_todo(t));
    } else {
        assert(l.push(t).drop_first() =~= l.drop_first().push(t));
        assert(l.push(t)[0] == l[0]);
        lemma_encode_todos_snoc(l.drop_first(), t);
        assert(spec_encode_todos(l.push(t)) =~= spec_encode_todos(l) + spec_encode_todo(t));
    }
}

fn push_u64(out: &mut Vec<u8>, v: u64)
    ensures
        final(out)@ == old(out)@ + spec_u64_to_le_bytes(v),
{
    let mut b = u64_to_le_bytes(v);
    out.append(&mut b);
}

fn push_str(out: &mut Vec<u8>, s: &str)
    ensures
        final(out)@ == old(out)@ + spec_encode_str(s@),
        encodable_str(s@),
{
    let mut b = s.as_bytes_vec();
    let n = b.len();
    push_u64(out, n as u64);
    out.append(&mut b);
    proof {
        assert(final(out)@ =~= old(out)@ + spec_encode_str(s@));
    }
}

fn push_todo(out: &mut Vec<u8>, t: &Todo)
    ensures
        final(out)@ == old(out)@ + spec_encode_todo(t.deep_view()),
        encodable_todo(t.deep_view()),
{
    push_str(out, t.title.as_str());
    push_str(out, t.description.as_str());
    out.push(if t.completed { 1u8 } else { 0u8 });
    push_u64(out, t.id);
    proof {
        assert(final(out)@ =~= old(out)@ + spec_encode_todo(t.deep_view()));
    }
}

/// Serializes the whole list; this is what goes to the persistent store after
/// every mutation.
pub fn encode_list(items: &Vec<Todo>) -> (r: Vec<u8>)
    ensures
        r@ == spec_encode_list(items.deep_view()),
        encodable(items.deep_view()),
{
    let ghost l = items.deep_view();
    let mut out: Vec<u8> = Vec::new();
    push_u64(&mut out, items.len() as u64);
    let mut k: usize = 0;
    while k < items.len()
        invariant
            0 <= k <= items.len(),
            l == items.deep_view(),
            l.len() == items@.len(),
            out@ == spec_u64_to_le_bytes(l.len() as u64) + spec_encode_todos(l.take(k as int)),
            forall|i: int| 0 <= i < k ==> encodable_todo(l[i]),
        decreases items.len() - k,
    {
        push_todo(&mut out, &items[k]);
        proof {
            assert(items[k as int].deep_view() == l[k as int]);
            lemma_encode_todos_snoc(l.take(k as int), l[k as int]);
            assert(l.take(k as int + 1) =~= l.take(k as int).push(l[k as int]));
            assert(out@ =~= spec_u64_to_le_bytes(l.len() as u64) + spec_encode_todos(
                l.take(k as int + 1),
            ));
        }
        k += 1;
    }
    proof {
        assert(l.take(l.len() as int) =~= l);
    }
    out
}

/// A range of a byte sequence that equals a concatenation splits at the
/// length of the first part.
proof fn lemma_split_prefix(b: Seq<u8>, pos: int, x: Seq<u8>, y: Seq<u8>)
    requires
        0 <= pos,
        pos + x.len() + y.len() <= b.len(),
        b.subrange(pos, pos + x.len() + y.len()) == x + y,
    ensures
        b.subrange(pos, pos + x.len()) == x,
        b.subrange(pos + x.len(), pos + x.len() + y.len()) == y,
{
    let whole = b.subrange(pos, pos + x.len() + y.len());
    assert forall|i: int| 0 <= i < x.len() implies b[pos + i] == x[i] by {
        assert(whole[i] == (x + y)[i]);
    }
    assert forall|i: int| 0 <= i < y.len() implies b[pos + x.len() + i] == y[i] by {
        assert(whole[x.len() + i] == (x + y)[x.len() + i]);
    }
    assert(b.subrange(pos, pos + x.len()) =~= x);
    assert(b.subrange(pos + x.len(), pos + x.len() + y.len()) =~= y);
}

/// Adjacent ranges of a byte sequence concatenate to the enclosing range.
proof fn lemma_join(b: Seq<u8>, pos: int, mid: int, end: int)
    requires
        0 <= pos <= mid <= end <= b.len(),
    ensures
        b.subrange(pos, end) == b.subrange(pos, mid) + b.subrange(mid, end),
{
    assert(b.subrange(pos, end) =~= b.subrange(pos, mid) + b.subrange(mid, end));
}

/// Two numbers with the same little-endian encoding are equal.
proof fn lemma_u64_le_injective(a: u64, b: u64)
    requires
        spec_u64_to_le_bytes(a) == spec_u64_to_le_bytes(b),
    ensures
        a == b,
{
    lemma_auto_spec_u64_to_from_le_bytes();
}

/// Relies on `String::from_utf8`: it succeeds exactly on valid UTF-8 input,
/// and the returned string is the decoding of those bytes.
#[verifier::external_body]
fn string_from_utf8(bytes: Vec<u8>) -> (r: Option<String>)
    ensures
        r is Some <==> valid_utf8(bytes@),
        r matches Some(s) ==> s@ == decode_utf8(bytes@),
{
    String::from_utf8(bytes).ok()
}

/// The encoding of a string is its eight length bytes plus its UTF-8 bytes.
proof fn lemma_encode_str_len(s: Seq<char>)
    ensures
        spec_encode_str(s).len() == 8 + encode_utf8(s).len(),
{
    lemma_auto_spec_u64_to_from_le_bytes();
}

/// Reads one little-endian `u64`; succeeds whenever eight bytes remain.
fn read_u64(bytes: &[u8], pos: usize) -> (r: Option<(u64, usize)>)
    ensures
        r matches Some((v, end)) ==> end == pos + 8 && end <= bytes@.len()
            && bytes@.subrange(pos as int, end as int) == spec_u64_to_le_bytes(v),
        pos + 8 <= bytes@.len() ==> r is Some,
{
    if bytes.len() < 8 || pos > bytes.len() - 8 {
        return None;
    }
    let s = slice_subrange(bytes, pos, pos + 8);
    let v = u64_from_le_bytes(s);
    proof {
        lemma_auto_spec_u64_to_from_le_bytes();
    }
    Some((v, pos + 8))
}

/// Reads one completion flag; succeeds whenever the next byte is 0 or 1.
fn read_bool(bytes: &[u8], pos: usize) -> (r: Option<(bool, usize)>)
    ensures
        r matches Some((b, end)) ==> end == pos + 1 && end <= bytes@.len()
            && bytes@.subrange(pos as int, end as int) == seq![
                if b {
                    1u8
                } else {
                    0u8
                },
            ],
        pos < bytes@.len() && (bytes@[pos as int] == 0u8 || bytes@[pos as int] == 1u8)
            ==> r is Some,
{
    if pos >= bytes.len() {
        return None;
    }
    let v = *slice_index_get(bytes, pos);
    if v == 0 {
        proof {
            assert(bytes@.subrange(pos as int, pos as int + 1) =~= seq![0u8]);
        }
        Some((false, pos + 1))
    } else if v == 1 {
        proof {
            assert(bytes@.subrange(pos as int, pos as int + 1) =~= seq![1u8]);
        }
        Some((true, pos + 1))
    } else {
        None
    }
}

/// Reads one length-prefixed UTF-8 string; succeeds whenever the bytes at
/// `pos` begin with the encoding of some string.
fn read_string(bytes: &[u8], pos: usize) -> (r: Option<(String, usize)>)
    ensures
        r matches Some((s, end)) ==> pos <= end <= bytes@.len()
            && end == pos + spec_encode_str(s@).len()
            && bytes@.subrange(pos as int, end as int) == spec_encode_str(s@)
            && encodable_str(s@),
        forall|s: Seq<char>|
            #![trigger spec_encode_str(s)]
            encodable_str(s) && pos + spec_encode_str(s).len() <= bytes@.len()
                && bytes@.subrange(pos as int, pos + spec_encode_str(s).len())
                == spec_encode_str(s) ==> (r matches Some((s2, end)) && s2@ == s && end == pos
                + spec_encode_str(s).len()),
{
    let (n, p1) = match read_u64(bytes, pos) {
        Some(x) => x,
        None => {
            proof {
                assert forall|s: Seq<char>|
                    encodable_str(s) && pos + spec_encode_str(s).len() <= bytes@.len()
                        && bytes@.subrange(pos as int, pos + spec_encode_str(s).len())
                        == #[trigger] spec_encode_str(s) implies false by {
                    lemma_encode_str_len(s);
                }
            }
            return None;
        },
    };
    if n > (bytes.len() - p1) as u64 {
        proof {
            assert forall|s: Seq<char>|
                encodable_str(s) && pos + spec_encode_str(s).len() <= bytes@.len()
                    && bytes@.subrange(pos as int, pos + spec_encode_str(s).len())
                    == #[trigger] spec_encode_str(s) implies false by {
                lemma_encode_str_len(s);
                lemma_split_prefix(
                    bytes@,
                    pos as int,
                    spec_u64_to_le_bytes(encode_utf8(s).len() as u64),
                    encode_utf8(s),
                );
                lemma_u64_le_injective(n, encode_utf8(s).len() as u64);
            }
        }
        return None;
    }
    let m = n as usize;
    let sub = slice_subrange(bytes, p1, p1 + m);
    let v = slice_to_vec(sub);
    match string_from_utf8(v) {
        Some(st) => {
            proof {
                lemma_auto_spec_u64_to_from_le_bytes();
                decode_utf8_encode_utf8(sub@);
                lemma_encode_str_len(st@);
                lemma_join(bytes@, pos as int, p1 as int, p1 as int + m);
                assert(bytes@.subrange(pos as int, p1 as int + m) == spec_encode_str(st@));
                assert forall|s: Seq<char>|
                    encodable_str(s) && pos + spec_encode_str(s).len() <= bytes@.len()
                        && bytes@.subrange(pos as int, pos + spec_encode_str(s).len())
                        == #[trigger] spec_encode_str(s) implies st@ == s && p1 + m == pos
                    + spec_encode_str(s).len() by {
                    lemma_encode_str_len(s);
                    lemma_split_prefix(
                        bytes@,
                        pos as int,
                        spec_u64_to_le_bytes(encode_utf8(s).len() as u64),
                        encode_utf8(s),
                    );
                    lemma_u64_le_injective(n, encode_utf8(s).len() as u64);
                    assert(sub@ == encode_utf8(s));
                    encode_utf8_decode_utf8(s);
                }
            }
            Some((st, p1 + m))
        },
        None => {
            proof {
                assert forall|s: Seq<char>|
                    encodable_str(s) && pos + spec_encode_str(s).len() <= bytes@.len()
                        && bytes@.subrange(pos as int, pos + spec_encode_str(s).len())
                        == #[trigger] spec_encode_str(s) implies false by {
                    lemma_encode_str_len(s);
                    lemma_split_prefix(
                        bytes@,
                        pos as int,
                        spec_u64_to_le_bytes(encode_utf8(s).len() as u64),
                        encode_utf8(s),
                    );
                    lemma_u64_le_injective(n, encode_utf8(s).len() as u64);
                    assert(sub@ == encode_utf8(s));
                    encode_utf8_valid_utf8(s);
                }
            }
            None
        },
    }
}

/// The encoding of a record is its two string encodings plus nine bytes for
/// the flag and the identifier.
proof fn lemma_encode_todo_len(t: TodoView)
    ensures
        spec_encode_todo(t).len() == spec_encode_str(t.title).len() + spec_encode_str(
            t.description,
        ).len() + 9,
{
    lemma_auto_spec_u64_to_from_le_bytes();
}

/// Where a byte range holds the encoding of a record, its four fields stand
/// at their own offsets inside that range.
proof fn lemma_todo_parts(b: Seq<u8>, pos: int, t: TodoView)
    requires
        0 <= pos,
        pos + spec_encode_todo(t).len() <= b.len(),
        b.subrange(pos, pos + spec_encode_todo(t).len()) == spec_encode_todo(t),
    ensures
        ({
            let ta = spec_encode_str(t.title);
            let de = spec_encode_str(t.description);
            &&& b.subrange(pos, pos + ta.len()) == ta
            &&& b.subrange(pos + ta.len(), pos + ta.len() + de.len()) == de
            &&& b[pos + ta.len() + de.len()] == (if t.completed {
                1u8
            } else {
                0u8
            })
            &&& b.subrange(pos + ta.len() + de.len() + 1, pos + ta.len() + de.len() + 9)
                == spec_u64_to_le_bytes(t.id)
        }),
{
    let ta = spec_encode_str(t.title);
    let de = spec_encode_str(t.description);
    let fl = seq![
        if t.completed {
            1u8
        } else {
            0u8
        },
    ];
    let id = spec_u64_to_le_bytes(t.id);
    lemma_encode_todo_len(t);
    lemma_auto_spec_u64_to_from_le_bytes();
    assert(spec_encode_todo(t) =~= ta + (de + (fl + id)));
    lemma_split_prefix(b, pos, ta, de + (fl + id));
    lemma_split_prefix(b, pos + ta.len(), de, fl + id);
    lemma_split_prefix(b, pos + ta.len() + de.len(), fl, id);
    assert(b[pos + ta.len() + de.len()] == b.subrange(
        pos + ta.len() + de.len(),
        pos + ta.len() + de.len() + 1,
    )[0]);
}

/// Reads one record; succeeds whenever the bytes at `pos` begin with the
/// encoding of some record.
fn read_todo(bytes: &[u8], pos: usize) -> (r: Option<(Todo, usize)>)
    ensures
        r matches Some((t, end)) ==> pos <= end <= bytes@.len()
            && end == pos + spec_encode_todo(t.deep_view()).len()
            && bytes@.subrange(pos as int, end as int) == spec_encode_todo(t.deep_view())
            && encodable_todo(t.deep_view()),
        forall|t: TodoView|
            #![trigger spec_encode_todo(t)]
            encodable_todo(t) && pos + spec_encode_todo(t).len() <= bytes@.len()
                && bytes@.subrange(pos as int, pos + spec_encode_todo(t).len())
                == spec_encode_todo(t) ==> (r matches Some((t2, end)) && t2.deep_view() == t
                && end == pos + spec_encode_todo(t).len()),
{
    let (title, p1) = match read_string(bytes, pos) {
        Some(x) => x,
        None => {
            proof {
                assert forall|t: TodoView|
                    encodable_todo(t) && pos + spec_encode_todo(t).len() <= bytes@.len()
                        && bytes@.subrange(pos as int, pos + spec_encode_todo(t).len())
                        == #[trigger] spec_encode_todo(t) implies false by {
                    lemma_encode_todo_len(t);
                    lemma_todo_parts(bytes@, pos as int, t);
                }
            }
            return None;
        },
    };
    let (description, p2) = match read_string(bytes, p1) {
        Some(x) => x,
        None => {
            proof {
                assert forall|t: TodoView|
                    encodable_todo(t) && pos + spec_encode_todo(t).len() <= bytes@.len()
                        && bytes@.subrange(pos as int, pos + spec_encode_todo(t).len())
                        == #[trigger] spec_encode_todo(t) implies false by {
                    lemma_encode_todo_len(t);
                    lemma_todo_parts(bytes@, pos as int, t);
                }
            }
            return None;
        },
    };
    let (completed, p3) = match read_bool(bytes, p2) {
        Some(x) => x,
        None => {
            proof {
                assert forall|t: TodoView|
                    encodable_todo(t) && pos + spec_encode_todo(t).len() <= bytes@.len()
                        && bytes@.subrange(pos as int, pos + spec_encode_todo(t).len())
                        == #[trigger] spec_encode_todo(t) implies false by {
                    lemma_encode_todo_len(t);
                    lemma_todo_parts(bytes@, pos as int, t);
                }
            }
            return None;
        },
    };
    let (id, p4) = match read_u64(bytes, p3) {
        Some(x) => x,
        None => {
            proof {
                assert forall|t: TodoView|
                    encodable_todo(t) && pos + spec_encode_todo(t).len() <= bytes@.len()
                        && bytes@.subrange(pos as int, pos + spec_encode_todo(t).len())
                        == #[trigger] spec_encode_todo(t) implies false by {
                    lemma_encode_todo_len(t);
                    lemma_todo_parts(bytes@, pos as int, t);
                }
            }
            return None;
        },
    };
    let todo = Todo { title, description, completed, id };
    proof {
        lemma_encode_todo_len(todo.deep_view());
        lemma_join(bytes@, pos as int, p1 as int, p2 as int);
        lemma_join(bytes@, pos as int, p2 as int, p3 as int);
        lemma_join(bytes@, pos as int, p3 as int, p4 as int);
        assert(bytes@.subrange(pos as int, p4 as int) =~= spec_encode_todo(todo.deep_view()));
        assert forall|t: TodoView|
            encodable_todo(t) && pos + spec_encode_todo(t).len() <= bytes@.len()
                && bytes@.subrange(pos as int, pos + spec_encode_todo(t).len())
                == #[trigger] spec_encode_todo(t) implies todo.deep_view() == t && p4 == pos
            + spec_encode_todo(t).len() by {
            lemma_encode_todo_len(t);
            lemma_todo_parts(bytes@, pos as int, t);
            assert(title@ == t.title);
            assert(p1 == pos + spec_encode_str(t.title).len());
            assert(description@ == t.description);
            assert(p2 == p1 + spec_encode_str(t.description).len());
            assert(bytes@.subrange(p2 as int, p2 as int + 1)[0] == bytes@[p2 as int]);
            assert(completed == t.completed);
            assert(bytes@.subrange(p3 as int, p4 as int) == spec_u64_to_le_bytes(t.id));
            lemma_u64_le_injective(id, t.id);
            assert(todo.deep_view() =~= t);
        }
    }
    Some((todo, p4))
}

/// Taking one more item moves its encoding from the tail to the prefix.
proof fn lemma_encode_todos_take_next(l: Seq<TodoView>, k: int)
    requires
        0 <= k < l.len(),
    ensures
        spec_encode_todos(l.take(k + 1)) == spec_encode_todos(l.take(k)) + spec_encode_todo(
            l[k],
        ),
{
    lemma_encode_todos_snoc(l.take(k), l[k]);
    assert(l.take(k + 1) =~= l.take(k).push(l[k]));
}

/// The concatenated item encodings split at any item boundary.
proof fn lemma_encode_todos_split(l: Seq<TodoView>, k: int)
    requires
        0 <= k <= l.len(),
    ensures
        spec_encode_todos(l) == spec_encode_todos(l.take(k)) + spec_encode_todos(l.skip(k)),
    decreases k,
{
    if k == 0 {
        assert(l.take(0).len() == 0);
        assert(l.skip(0) =~= l);
        assert(spec_encode_todos(l) =~= spec_encode_todos(l.take(0)) + spec_encode_todos(
            l.skip(0),
        ));
    } else {
        lemma_encode_todos_split(l, k - 1);
        lemma_encode_todos_take_next(l, k - 1);
        assert(l.skip(k - 1)[0] == l[k - 1]);
        assert(l.skip(k - 1).drop_first() =~= l.skip(k));
        assert(spec_encode_todos(l.skip(k - 1)) == spec_encode_todo(l[k - 1])
            + spec_encode_todos(l.skip(k)));
        assert(spec_encode_todos(l) =~= spec_encode_todos(l.take(k)) + spec_encode_todos(
            l.skip(k),
        ));
    }
}

/// Where a byte sequence is the encoding of a list, the count, the first `k`
/// item encodings and the next item's encoding stand at their own offsets.
proof fn lemma_list_parts(b: Seq<u8>, l: Seq<TodoView>, k: int)
    requires
        encodable(l),
        b == spec_encode_list(l),
        0 <= k <= l.len(),
    ensures
        b.len() == 8 + spec_encode_todos(l).len(),
        b.subrange(0, 8) == spec_u64_to_le_bytes(l.len() as u64),
        b.subrange(8, 8 + spec_encode_todos(l.take(k)).len() as int) == spec_encode_todos(l.take(k)),
        spec_encode_todos(l.take(k)).len() + (if k < l.len() {
            spec_encode_todo(l[k]).len() as int
        } else {
            0
        }) <= spec_encode_todos(l).len(),
        k < l.len() ==> b.subrange(
            8 + spec_encode_todos(l.take(k)).len() as int,
            8 + spec_encode_todos(l.take(k)).len() as int + spec_encode_todo(l[k]).len() as int,
        ) == spec_encode_todo(l[k]),
{
    lemma_auto_spec_u64_to_from_le_bytes();
    lemma_encode_todos_split(l, k);
    assert(b.subrange(0, b.len() as int) =~= b);
    lemma_split_prefix(b, 0, spec_u64_to_le_bytes(l.len() as u64), spec_encode_todos(l));
    lemma_split_prefix(b, 8, spec_encode_todos(l.take(k)), spec_encode_todos(l.skip(k)));
    if k < l.len() {
        assert(l.skip(k)[0] == l[k]);
        assert(l.skip(k).drop_first() =~= l.skip(k + 1));
        assert(spec_encode_todos(l.skip(k)) == spec_encode_todo(l[k]) + spec_encode_todos(
            l.skip(k + 1),
        ));
        lemma_split_prefix(
            b,
            8 + spec_encode_todos(l.take(k)).len() as int,
            spec_encode_todo(l[k]),
            spec_encode_todos(l.skip(k + 1)),
        );
    }
}

/// Two strings with the same encoding are equal.
proof fn lemma_encode_str_injective(s1: Seq<char>, s2: Seq<char>)
    requires
        spec_encode_str(s1) == spec_encode_str(s2),
    ensures
        s1 == s2,
{
    lemma_encode_str_len(s1);
    lemma_encode_str_len(s2);
    let b = spec_encode_str(s1);
    assert(b.subrange(0, b.len() as int) =~= b);
    lemma_split_prefix(
        b,
        0,
        spec_u64_to_le_bytes(encode_utf8(s1).len() as u64),
        encode_utf8(s1),
    );
    lemma_split_prefix(
        b,
        0,
        spec_u64_to_le_bytes(encode_utf8(s2).len() as u64),
        encode_utf8(s2),
    );
    assert(encode_utf8(s1) == encode_utf8(s2));
    encode_utf8_decode_utf8(s1);
    encode_utf8_decode_utf8(s2);
}

/// Two records whose encodings begin the same byte sequence are equal; the
/// format is self-delimiting.
proof fn lemma_todo_same_prefix(b: Seq<u8>, t1: TodoView, t2: TodoView)
    requires
        encodable_todo(t1),
        encodable_todo(t2),
        spec_encode_todo(t1).len() <= b.len(),
        spec_encode_todo(t2).len() <= b.len(),
        b.subrange(0, spec_encode_todo(t1).len() as int) == spec_encode_todo(t1),
        b.subrange(0, spec_encode_todo(t2).len() as int) == spec_encode_todo(t2),
    ensures
        t1 == t2,
{
    let a1 = spec_encode_str(t1.title);
    let a2 = spec_encode_str(t2.title);
    let d1 = spec_encode_str(t1.description);
    let d2 = spec_encode_str(t2.description);
    lemma_encode_todo_len(t1);
    lemma_encode_todo_len(t2);
    lemma_encode_str_len(t1.title);
    lemma_encode_str_len(t2.title);
    lemma_encode_str_len(t1.description);
    lemma_encode_str_len(t2.description);
    lemma_todo_parts(b, 0, t1);
    lemma_todo_parts(b, 0, t2);
    lemma_split_prefix(
        b,
        0,
        spec_u64_to_le_bytes(encode_utf8(t1.title).len() as u64),
        encode_utf8(t1.title),
    );
    lemma_split_prefix(
        b,
        0,
        spec_u64_to_le_bytes(encode_utf8(t2.title).len() as u64),
        encode_utf8(t2.title),
    );
    lemma_u64_le_injective(
        encode_utf8(t1.title).len() as u64,
        encode_utf8(t2.title).len() as u64,
    );
    assert(a1.len() == a2.len());
    assert(a1 == a2);
    lemma_encode_str_injective(t1.title, t2.title);
    lemma_split_prefix(
        b,
        a1.len() as int,
        spec_u64_to_le_bytes(encode_utf8(t1.description).len() as u64),
        encode_utf8(t1.description),
    );
    lemma_split_prefix(
        b,
        a2.len() as int,
        spec_u64_to_le_bytes(encode_utf8(t2.description).len() as u64),
        encode_utf8(t2.description),
    );
    lemma_u64_le_injective(
        encode_utf8(t1.description).len() as u64,
        encode_utf8(t2.description).len() as u64,
    );
    assert(d1.len() == d2.len());
    assert(d1 == d2);
    lemma_encode_str_injective(t1.description, t2.description);
    assert(t1.completed == t2.completed);
    assert(b.subrange(
        a1.len() + d1.len() + 1 as int,
        a1.len() + d1.len() + 9 as int,
    ) == spec_u64_to_le_bytes(t1.id));
    assert(b.subrange(
        a2.len() + d2.len() + 1 as int,
        a2.len() + d2.len() + 9 as int,
    ) == spec_u64_to_le_bytes(t2.id));
    lemma_u64_le_injective(t1.id, t2.id);
    assert(t1 =~= t2);
}

/// Two equally long lists whose item encodings concatenate to the same bytes
/// are equal item by item.
proof fn lemma_encode_todos_injective(l1: Seq<TodoView>, l2: Seq<TodoView>)
    requires
        l1.len() == l2.len(),
        forall|i: int| 0 <= i < l1.len() ==> encodable_todo(l1[i]),
        forall|i: int| 0 <= i < l2.len() ==> encodable_todo(l2[i]),
        spec_encode_todos(l1) == spec_encode_todos(l2),
    ensures
        l1 == l2,
    decreases l1.len(),
{
    if l1.len() == 0 {
        assert(l1 =~= l2);
    } else {
        let b = spec_encode_todos(l1);
        let e1 = spec_encode_todo(l1[0]);
        let e2 = spec_encode_todo(l2[0]);
        let r1 = spec_encode_todos(l1.drop_first());
        let r2 = spec_encode_todos(l2.drop_first());
        assert(b == e1 + r1);
        assert(b == e2 + r2);
        assert(b.subrange(0, b.len() as int) =~= b);
        lemma_split_prefix(b, 0, e1, r1);
        lemma_split_prefix(b, 0, e2, r2);
        lemma_todo_same_prefix(b, l1[0], l2[0]);
        assert(e1.len() == e2.len());
        assert(r1 == r2);
        assert forall|i: int| 0 <= i < l1.drop_first().len() implies encodable_todo(
            l1.drop_first()[i],
        ) by {
            assert(l1.drop_first()[i] == l1[i + 1]);
        }
        assert forall|i: int| 0 <= i < l2.drop_first().len() implies encodable_todo(
            l2.drop_first()[i],
        ) by {
            assert(l2.drop_first()[i] == l2[i + 1]);
        }
        lemma_encode_todos_injective(l1.drop_first(), l2.drop_first());
        assert forall|i: int| 0 <= i < l1.len() implies l1[i] == l2[i] by {
            if i > 0 {
                assert(l1[i] == l1.drop_first()[i - 1]);
                assert(l2[i] == l2.drop_first()[i - 1]);
            }
        }
        assert(l1 =~= l2);
    }
}

/// Law: the persistence round trip is lossless. No two lists share an
/// encoding, so a stored byte record determines the list that was persisted,
/// field by field and in order; together with the contracts of
/// [`encode_list`] and [`decode_list`] this says that reloading what was
/// persisted yields the persisted list.
pub proof fn lemma_encoding_injective(l1: Seq<TodoView>, l2: Seq<TodoView>)
    requires
        encodable(l1),
        encodable(l2),
        spec_encode_list(l1) == spec_encode_list(l2),
    ensures
        l1 == l2,
{
    lemma_auto_spec_u64_to_from_le_bytes();
    let b = spec_encode_list(l1);
    assert(b.subrange(0, b.len() as int) =~= b);
    lemma_split_prefix(b, 0, spec_u64_to_le_bytes(l1.len() as u64), spec_encode_todos(l1));
    lemma_split_prefix(b, 0, spec_u64_to_le_bytes(l2.len() as u64), spec_encode_todos(l2));
    lemma_u64_le_injective(l1.len() as u64, l2.len() as u64);
    assert(l1.len() == l2.len());
    assert(spec_encode_todos(l1) == spec_encode_todos(l2));
    lemma_encode_todos_injective(l1, l2);
}

/// Deserializes a stored byte record back into the todo list.
///
/// Exactly the outputs of [`encode_list`] are accepted: decoding returns the
/// list whose encoding the bytes are, and returns `None` on every other
/// input.
pub fn decode_list(bytes: &[u8]) -> (r: Option<Vec<Todo>>)
    ensures
        r matches Some(items) ==> bytes@ == spec_encode_list(items.deep_view()) && encodable(
            items.deep_view(),
        ),
        forall|l: Seq<TodoView>|
            #![trigger spec_encode_list(l)]
            encodable(l) && bytes@ == spec_encode_list(l) ==> (r matches Some(items)
                && items.deep_view() == l),
{
    let (count, start) = match read_u64(bytes, 0) {
        Some(x) => x,
        None => {
            proof {
                assert forall|l: Seq<TodoView>|
                    encodable(l) && bytes@ == #[trigger] spec_encode_list(l) implies false by {
                    lemma_list_parts(bytes@, l, 0);
                }
            }
            return None;
        },
    };
    let mut items: Vec<Todo> = Vec::new();
    let mut pos: usize = start;
    let mut k: u64 = 0;
    proof {
        assert(items.deep_view() =~= Seq::<TodoView>::empty());
        assert forall|l: Seq<TodoView>|
            encodable(l) && bytes@ == #[trigger] spec_encode_list(l) implies l.len() == count
            && items.deep_view() == l.take(0) && pos == 8 + spec_encode_todos(l.take(0)).len() by {
            lemma_list_parts(bytes@, l, 0);
            lemma_u64_le_injective(count, l.len() as u64);
            assert(l.take(0) =~= Seq::<TodoView>::empty());
            assert(spec_encode_todos(l.take(0)) == Seq::<u8>::empty());
            assert(items.deep_view() =~= l.take(0));
        }
    }
    while k < count
        invariant
            8 <= pos <= bytes@.len(),
            bytes@.subrange(0, 8) == spec_u64_to_le_bytes(count),
            bytes@.subrange(8, pos as int) == spec_encode_todos(items.deep_view()),
            items@.len() == k,
            k <= count,
            forall|i: int|
                0 <= i < items.deep_view().len() ==> encodable_todo(items.deep_view()[i]),
            forall|l: Seq<TodoView>|
                #![trigger spec_encode_list(l)]
                encodable(l) && bytes@ == spec_encode_list(l) ==> l.len() == count
                    && items.deep_view() == l.take(k as int) && pos == 8 + spec_encode_todos(
                    l.take(k as int),
                ).len(),
        decreases count - k,
    {
        let (todo, end) = match read_todo(bytes, pos) {
            Some(x) => x,
            None => {
                proof {
                    assert forall|l: Seq<TodoView>|
                        encodable(l) && bytes@ == #[trigger] spec_encode_list(l) implies false by {
                        lemma_list_parts(bytes@, l, k as int);
                    }
                }
                return None;
            },
        };
        let ghost prev = items.deep_view();
        items.push(todo);
        proof {
            assert(items.deep_view() =~= prev.push(todo.deep_view()));
            lemma_join(bytes@, 8, pos as int, end as int);
            lemma_encode_todos_snoc(prev, todo.deep_view());
            assert forall|l: Seq<TodoView>|
                encodable(l) && bytes@ == #[trigger] spec_encode_list(l) implies l.len() == count
                && items.deep_view() == l.take(k as int + 1) && end == 8 + spec_encode_todos(
                l.take(k as int + 1),
            ).len() by {
                lemma_list_parts(bytes@, l, k as int);
                lemma_encode_todos_take_next(l, k as int);
                assert(todo.deep_view() == l[k as int]);
                assert(items.deep_view() =~= l.take(k as int + 1));
            }
        }
        pos = end;
        k = k + 1;
    }
    if pos != bytes.len() {
        proof {
            assert forall|l: Seq<TodoView>|
                encodable(l) && bytes@ == #[trigger] spec_encode_list(l) implies false by {
                lemma_list_parts(bytes@, l, k as int);
                assert(l.take(l.len() as int) =~= l);
            }
        }
        return None;
    }
    proof {
        lemma_join(bytes@, 0, 8, pos as int);
        assert(bytes@.subrange(0, pos as int) =~= bytes@);
        assert(items.deep_view().len() == count);
        assert(bytes@ == spec_encode_list(items.deep_view()));
        assert forall|l: Seq<TodoView>|
            encodable(l) && bytes@ == #[trigger] spec_encode_list(l) implies items.deep_view()
            == l by {
            assert(l.take(l.len() as int) =~= l);
        }
    }
    Some(items)
}

} // verus!
