//! How values are written and read, and reading back what was written: a flat object of
//! texts, once rendered, is read as the fields that it was made of.

use vstd::prelude::*;

use crate::binary64;
use crate::json;
use crate::json::JsonView;
use crate::text;

verus! {

/// Whether a text is free of control characters.
pub open spec fn printable(s: Seq<char>) -> bool {
    forall|i: int| 0 <= i < s.len() ==> (#[trigger] s[i]) as u32 >= 0x20
}

/// Whether a text can be the name of a field: not empty, printable, and without
/// quotes and backslashes.
pub open spec fn plain_name(s: Seq<char>) -> bool {
    &&& s.len() > 0
    &&& printable(s)
    &&& forall|i: int| 0 <= i < s.len() ==> (#[trigger] s[i]) != '"' && s[i] != '\\'
}

/// Whether fields have names that can be read back, and values without control
/// characters.
pub open spec fn readable(fields: Seq<(Seq<char>, Seq<char>)>) -> bool {
    forall|i: int| 0 <= i < fields.len() ==> plain_name((#[trigger] fields[i]).0) && printable(fields[i].1)
}

/// Fields with texts for values, for writing.
pub open spec fn texts(fields: Seq<(Seq<char>, Seq<char>)>) -> Seq<(Seq<char>, JsonView)> {
    fields.map_values(|f: (Seq<char>, Seq<char>)| (f.0, JsonView::Str(f.1)))
}

/// Where a run of characters ends, if it is known.
proof fn lemma_run(s: Seq<char>, i: int, j: int, those: spec_fn(char) -> bool)
    requires
        0 <= i <= j <= s.len(),
        forall|k: int| i <= k < j ==> those(#[trigger] s[k]),
        j < s.len() ==> !those(s[j]),
    ensures
        text::past(s, i, those) == j,
    decreases j - i,
{
    if i < j {
        assert(those(s[i]));
        lemma_run(s, i + 1, j, those);
    }
}

/// Texts one after the other are escaped one after the other.
proof fn lemma_escaped_concat(a: Seq<char>, b: Seq<char>)
    ensures
        json::escaped(a + b) == json::escaped(a) + json::escaped(b),
    decreases b.len(),
{
    if b.len() == 0 {
        assert(a + b =~= a);
        assert(json::escaped(a) + json::escaped(b) =~= json::escaped(a));
    } else {
        assert((a + b).drop_last() =~= a + b.drop_last());
        lemma_escaped_concat(a, b.drop_last());
        assert(json::escaped(a + b) =~= json::escaped(a) + json::escaped(b));
    }
}

/// A name has nothing to be escaped.
proof fn lemma_plain_is_not_escaped(s: Seq<char>)
    requires
        printable(s),
        forall|i: int| 0 <= i < s.len() ==> (#[trigger] s[i]) != '"' && s[i] != '\\',
    ensures
        json::escaped(s) == s,
    decreases s.len(),
{
    if s.len() > 0 {
        let rest = s.drop_last();
        let c = s[s.len() - 1];
        assert forall|i: int| 0 <= i < rest.len() implies (#[trigger] rest[i]) as u32 >= 0x20 && rest[i] != '"'
            && rest[i] != '\\' by {
            assert(rest[i] == s[i]);
        }
        lemma_plain_is_not_escaped(rest);
        assert(c as u32 >= 0x20);
        assert(json::escape(c) =~= seq![c]);
        assert(rest + seq![c] =~= s);
    }
}

/// An escaped text, up to the closing quote, is read as what it was.
proof fn lemma_quoted_is_read_back(s: Seq<char>, i: int, v: Seq<char>)
    requires
        0 <= i,
        i + json::escaped(v).len() < s.len(),
        forall|k: int| 0 <= k < json::escaped(v).len() ==> s[i + k] == #[trigger] json::escaped(v)[k],
        s[i + json::escaped(v).len()] == '"',
        printable(v),
    ensures
        json::quoted_value(s, i, false) == (v, i + json::escaped(v).len() + 1),
    decreases v.len(),
{
    if v.len() == 0 {
        assert(json::quoted_value(s, i, false).0 =~= v);
    } else {
        let c = v[0];
        let one = seq![c];
        let rest = v.skip(1);
        assert(v =~= one + rest);
        lemma_escaped_concat(one, rest);
        assert(one.drop_last() =~= Seq::empty());
        assert(json::escaped(Seq::empty()) =~= Seq::empty());
        assert(json::escaped(one) =~= json::escape(c));
        let m = json::escape(c).len();
        let e = json::escaped(v);
        assert(c as u32 >= 0x20);
        assert forall|k: int| 0 <= k < json::escaped(rest).len() implies s[i + m + k] == #[trigger] json::escaped(
            rest,
        )[k] by {
            assert(e[m + k] == json::escaped(rest)[k]);
        }
        assert forall|k: int| 0 <= k < rest.len() implies (#[trigger] rest[k]) as u32 >= 0x20 by {
            assert(rest[k] == v[k + 1]);
        }
        lemma_quoted_is_read_back(s, i + m, rest);
        assert(e[0] == json::escape(c)[0]);
        assert(s[i + 0] == e[0]);
        reveal_with_fuel(json::quoted_value, 3);
        if m == 2 {
            assert(e[1] == json::escape(c)[1]);
            assert(s[i + 1] == e[1]);
        }
        assert(json::quoted_value(s, i, false).0 =~= v);
    }
}

/// A field as it is written.
spec fn field_text(f: (Seq<char>, Seq<char>)) -> Seq<char> {
    json::quoted(f.0) + seq![':'] + json::quoted(f.1)
}

/// The fields are written one after the other.
proof fn lemma_next_field(fields: Seq<(Seq<char>, Seq<char>)>, k: int)
    requires
        0 <= k < fields.len(),
    ensures
        json::fields_text(texts(fields), (k + 1) as nat) == json::fields_text(texts(fields), k as nat) + (if k > 0 {
            seq![',']
        } else {
            Seq::empty()
        }) + field_text(fields[k]),
{
    let fs = texts(fields);
    assert(fs[k] == (fields[k].0, JsonView::Str(fields[k].1)));
    assert(json::rendered(fs[k].1) == json::quoted(fields[k].1));
    assert(json::fields_text(fs, (k + 1) as nat) =~= json::fields_text(fs, k as nat) + (if k > 0 {
        seq![',']
    } else {
        Seq::empty()
    }) + field_text(fields[k]));
}

/// What is written of the first fields stays.
proof fn lemma_prefix(fields: Seq<(Seq<char>, Seq<char>)>, k: int, n: int)
    requires
        0 <= k <= n <= fields.len(),
    ensures
        json::fields_text(texts(fields), k as nat).len() <= json::fields_text(texts(fields), n as nat).len(),
        forall|x: int|
            0 <= x < json::fields_text(texts(fields), k as nat).len() ==> #[trigger] json::fields_text(
                texts(fields),
                n as nat,
            )[x] == json::fields_text(texts(fields), k as nat)[x],
    decreases n,
{
    if k < n {
        lemma_prefix(fields, k, n - 1);
        lemma_next_field(fields, n - 1);
    }
}

/// Where field `k` begins.
spec fn begins(fields: Seq<(Seq<char>, Seq<char>)>, k: int) -> int {
    json::fields_text(texts(fields), k as nat).len() + (if k > 0 { 1int } else { 0int })
}

/// What is written where for field `k`.
proof fn lemma_field_at(fields: Seq<(Seq<char>, Seq<char>)>, k: int)
    requires
        readable(fields),
        0 <= k < fields.len(),
    ensures
        ({
            let t = json::fields_text(texts(fields), fields.len());
            let p = begins(fields, k);
            let name = fields[k].0;
            let n = name.len();
            let e = json::escaped(fields[k].1);
            let end = p + n + e.len() + 5;
            &&& 0 <= p
            &&& end <= t.len()
            &&& end == json::fields_text(texts(fields), (k + 1) as nat).len()
            &&& k > 0 ==> t[p - 1] == ','
            &&& t[p] == '"'
            &&& forall|j: int| 0 <= j < n ==> t[p + 1 + j] == #[trigger] name[j]
            &&& t[p + 1 + n] == '"'
            &&& t[p + 2 + n] == ':'
            &&& t[p + 3 + n] == '"'
            &&& forall|j: int| 0 <= j < e.len() ==> t[p + 4 + n + j] == #[trigger] e[j]
            &&& t[end - 1] == '"'
        }),
{
    let fs = texts(fields);
    let t = json::fields_text(fs, fields.len());
    let before = json::fields_text(fs, k as nat);
    let upto = json::fields_text(fs, (k + 1) as nat);
    let p = begins(fields, k);
    let name = fields[k].0;
    let n = name.len() as int;
    let e = json::escaped(fields[k].1);
    let f = field_text(fields[k]);
    assert(plain_name(name));
    lemma_plain_is_not_escaped(name);
    lemma_next_field(fields, k);
    lemma_prefix(fields, k + 1, fields.len() as int);
    assert(f.len() == n + e.len() + 5);
    assert(f[0] == '"');
    assert forall|j: int| 0 <= j < n implies f[1 + j] == #[trigger] name[j] by {}
    assert(f[1 + n] == '"');
    assert(f[2 + n] == ':');
    assert(f[3 + n] == '"');
    assert forall|j: int| 0 <= j < e.len() implies f[4 + n + j] == #[trigger] e[j] by {}
    assert(f[f.len() - 1] == '"');
    assert forall|j: int| 0 <= j < f.len() implies t[p + j] == #[trigger] f[j] by {
        assert(upto[p + j] == f[j]);
        assert(t[p + j] == upto[p + j]);
    }
    if k > 0 {
        assert(upto[p - 1] == ',');
        assert(t[p - 1] == upto[p - 1]);
    }
    assert forall|j: int| 0 <= j < n implies t[p + 1 + j] == #[trigger] name[j] by {
        assert(t[p + (1 + j)] == f[1 + j]);
    }
    assert forall|j: int| 0 <= j < e.len() implies t[p + 4 + n + j] == #[trigger] e[j] by {
        assert(t[p + (4 + n + j)] == f[4 + n + j]);
    }
    assert(t[p + (1 + n)] == f[1 + n]);
    assert(t[p + (2 + n)] == f[2 + n]);
    assert(t[p + (3 + n)] == f[3 + n]);
    assert(t[p + (f.len() - 1)] == f[f.len() - 1]);
}

/// From field `k` on, the fields are read as they were written.
proof fn lemma_fields_are_read_back(fields: Seq<(Seq<char>, Seq<char>)>, k: int)
    requires
        readable(fields),
        0 <= k < fields.len(),
    ensures
        json::fields_from(json::fields_text(texts(fields), fields.len()), begins(fields, k)) == fields.skip(k),
    decreases fields.len() - k,
{
    let t = json::fields_text(texts(fields), fields.len());
    let p = begins(fields, k);
    let name = fields[k].0;
    let value = fields[k].1;
    let n = name.len() as int;
    let e = json::escaped(value);
    let end = p + n + e.len() + 5;
    assert(plain_name(name) && printable(value));
    lemma_field_at(fields, k);
    let no_quote = |c: char| c != '"';
    let colon = |c: char| c == ':' || text::is_space(c);
    let comma = |c: char| c == ',' || text::is_space(c);
    lemma_run(t, p, p, no_quote);
    assert forall|x: int| p + 1 <= x < p + 1 + n implies no_quote(#[trigger] t[x]) by {
        assert(t[p + 1 + (x - p - 1)] == name[x - p - 1]);
    }
    lemma_run(t, p + 1, p + 1 + n, no_quote);
    assert(t.subrange(p + 1, p + 1 + n) =~= name) by {
        assert forall|j: int| 0 <= j < n implies t.subrange(p + 1, p + 1 + n)[j] == name[j] by {
            assert(t[p + 1 + j] == name[j]);
        }
    }
    assert forall|x: int| p + 2 + n <= x < p + 3 + n implies colon(#[trigger] t[x]) by {}
    lemma_run(t, p + 2 + n, p + 3 + n, colon);
    assert forall|j: int| 0 <= j < e.len() implies t[(p + 4 + n) + j] == #[trigger] e[j] by {}
    lemma_quoted_is_read_back(t, p + 4 + n, value);
    let first = (name, value);
    if k + 1 < fields.len() {
        lemma_field_at(fields, k + 1);
        assert(begins(fields, k + 1) == end + 1);
        assert forall|x: int| end <= x < end + 1 implies comma(#[trigger] t[x]) by {}
        lemma_run(t, end, end + 1, comma);
        lemma_fields_are_read_back(fields, k + 1);
        assert(seq![first] + fields.skip(k + 1) =~= fields.skip(k));
    } else {
        lemma_run(t, end, end, comma);
        assert(seq![first] + Seq::<(Seq<char>, Seq<char>)>::empty() =~= fields.skip(k));
    }
}

/// The fields of an object are what is between its braces.
proof fn lemma_inside(fields: Seq<(Seq<char>, Seq<char>)>)
    requires
        readable(fields),
    ensures
        json::inside(json::rendered(JsonView::Obj(texts(fields)))) == json::fields_text(texts(fields), fields.len()),
{
    let t = json::fields_text(texts(fields), fields.len());
    let body = json::rendered(JsonView::Obj(texts(fields)));
    assert(body =~= seq!['{'] + t + seq!['}']);
    let space = |c: char| text::is_space(c);
    let head = |c: char| c == '{';
    let tail = |c: char| c == '}';
    if fields.len() > 0 {
        lemma_field_at(fields, 0);
        lemma_field_at(fields, fields.len() - 1);
        assert(body[1] == t[0]);
    }
    lemma_run(body, 0, 0, space);
    assert(body.skip(0) =~= body);
    assert(text::before(body, body.len() as int, space) == body.len());
    assert(body.take(body.len() as int) =~= body);
    lemma_run(body, 0, 1, head);
    let rest = body.skip(1);
    assert(rest =~= t + seq!['}']);
    reveal_with_fuel(text::before, 3);
    assert(text::before(rest, rest.len() as int, tail) == t.len());
    assert(rest.take(t.len() as int) =~= t);
}

/// Fields by name, if each name occurs once.
proof fn lemma_by_name(fields: Seq<(Seq<char>, Seq<char>)>)
    requires
        forall|i: int, j: int|
            0 <= i < j < fields.len() ==> (#[trigger] fields[i]).0 != (#[trigger] fields[j]).0,
    ensures
        ({
            let m = json::by_name(fields);
            &&& m.dom().finite()
            &&& m.dom().len() == fields.len()
            &&& forall|i: int|
                0 <= i < fields.len() ==> m.contains_key((#[trigger] fields[i]).0) && m[fields[i].0] == fields[i].1
            &&& forall|name: Seq<char>| #[trigger]
                m.contains_key(name) ==> exists|i: int| 0 <= i < fields.len() && (#[trigger] fields[i]).0 == name
        }),
    decreases fields.len(),
{
    if fields.len() == 0 {
        assert(json::by_name(fields).dom() =~= Set::empty());
    } else {
        let rest = fields.drop_last();
        let last = fields[fields.len() - 1];
        lemma_by_name(rest);
        let before = json::by_name(rest);
        let m = json::by_name(fields);
        assert(m == before.insert(last.0, last.1));
        assert(!before.contains_key(last.0)) by {
            if before.contains_key(last.0) {
                let i = choose|i: int| 0 <= i < rest.len() && (#[trigger] rest[i]).0 == last.0;
                assert(fields[i].0 != fields[fields.len() - 1].0);
            }
        }
        assert(m.dom() =~= before.dom().insert(last.0));
        assert forall|i: int| 0 <= i < fields.len() implies m.contains_key((#[trigger] fields[i]).0)
            && m[fields[i].0] == fields[i].1 by {
            if i < rest.len() {
                assert(rest[i] == fields[i]);
                assert(fields[i].0 != fields[fields.len() - 1].0);
            }
        }
        assert forall|name: Seq<char>| #[trigger] m.contains_key(name) implies exists|i: int|
            0 <= i < fields.len() && (#[trigger] fields[i]).0 == name by {
            if name == last.0 {
                assert(fields[fields.len() - 1].0 == name);
            } else {
                assert(before.contains_key(name));
                let i = choose|i: int| 0 <= i < rest.len() && (#[trigger] rest[i]).0 == name;
                assert(fields[i].0 == name);
            }
        }
    }
}

/// A flat object of texts, rendered and read again, has exactly the fields that it
/// was made of: names that are not empty and differ, without quotes, backslashes and
/// control characters, and any values without control characters, quotes,
/// backslashes, commas and braces included.
pub proof fn law_flat_objects_read_back(fields: Seq<(Seq<char>, Seq<char>)>)
    requires
        readable(fields),
        forall|i: int, j: int|
            0 <= i < j < fields.len() ==> (#[trigger] fields[i]).0 != (#[trigger] fields[j]).0,
    ensures
        ({
            let m = json::flat_fields(json::rendered(JsonView::Obj(texts(fields))));
            &&& m.dom().finite()
            &&& m.dom().len() == fields.len()
            &&& forall|i: int|
                0 <= i < fields.len() ==> m.contains_key((#[trigger] fields[i]).0) && m[fields[i].0] == fields[i].1
            &&& forall|name: Seq<char>| #[trigger]
                m.contains_key(name) ==> exists|i: int| 0 <= i < fields.len() && (#[trigger] fields[i]).0 == name
        }),
{
    let t = json::fields_text(texts(fields), fields.len());
    lemma_inside(fields);
    assert(json::fields_from(t, 0) =~= fields) by {
        if fields.len() > 0 {
            lemma_fields_are_read_back(fields, 0);
            assert(begins(fields, 0) == 0);
            assert(fields.skip(0) =~= fields);
        }
    }
    lemma_by_name(fields);
}

/// How values are written: the words for nothing and for truth, numbers in decimal digits,
/// texts in quotes; arrays and objects piece by piece, with a comma before every piece but
/// the first, and a colon after every name.
pub proof fn law_values_are_written_piece_by_piece(
    n: u64,
    s: Seq<char>,
    items: Seq<JsonView>,
    fields: Seq<(Seq<char>, JsonView)>,
    name: Seq<char>,
    j: JsonView,
)
    ensures
        json::rendered(JsonView::Null) == "null"@,
        json::rendered(JsonView::Bool(true)) == "true"@ && json::rendered(JsonView::Bool(false)) == "false"@,
        n < 0x20_0000_0000_0000 ==> json::rendered(JsonView::Num(n)) == text::decimal(n as nat),
        json::rendered(JsonView::Arr(Seq::empty())) == seq!['[', ']'],
        json::rendered(JsonView::Obj(Seq::empty())) == seq!['{', '}'],
        ({
            let all = json::rendered(JsonView::Arr(items));
            let more = json::rendered(JsonView::Arr(items.push(j)));
            more == all.drop_last() + (if items.len() > 0 { seq![','] } else { Seq::empty() }) + json::rendered(j) + seq![
                ']',
            ]
        }),
        ({
            let all = json::rendered(JsonView::Obj(fields));
            let more = json::rendered(JsonView::Obj(fields.push((name, j))));
            more == all.drop_last() + (if fields.len() > 0 { seq![','] } else { Seq::empty() }) + json::rendered(
                JsonView::Str(name),
            ) + seq![':'] + json::rendered(j) + seq!['}']
        }),
{
    if n < 0x20_0000_0000_0000 {
        binary64::law_small_numbers_show_exactly(n);
    }
    assert(json::rendered(JsonView::Arr(Seq::empty())) =~= seq!['[', ']']);
    assert(json::rendered(JsonView::Obj(Seq::empty())) =~= seq!['{', '}']);
    lemma_items_of_start(items, items.push(j), items.len());
    lemma_fields_of_start(fields, fields.push((name, j)), fields.len());
    let x = json::rendered(JsonView::Arr(items));
    let y = json::rendered(JsonView::Arr(items.push(j)));
    assert(items.push(j)[items.len() as int] == j);
    assert(x.drop_last() =~= seq!['['] + json::items_text(items, items.len()));
    assert(y =~= x.drop_last() + (if items.len() > 0 { seq![','] } else { Seq::empty() }) + json::rendered(j) + seq![
        ']',
    ]);
    let u = json::rendered(JsonView::Obj(fields));
    let w = json::rendered(JsonView::Obj(fields.push((name, j))));
    assert(fields.push((name, j))[fields.len() as int] == (name, j));
    assert(u.drop_last() =~= seq!['{'] + json::fields_text(fields, fields.len()));
    assert(w =~= u.drop_last() + (if fields.len() > 0 { seq![','] } else { Seq::empty() }) + json::rendered(
        JsonView::Str(name),
    ) + seq![':'] + json::rendered(j) + seq!['}']);
}

/// The first items of an array are written the same whatever comes after.
proof fn lemma_items_of_start(a: Seq<JsonView>, b: Seq<JsonView>, n: nat)
    requires
        n <= a.len(),
        n <= b.len(),
        forall|i: int| 0 <= i < n ==> a[i] == b[i],
    ensures
        json::items_text(a, n) == json::items_text(b, n),
    decreases n,
{
    if n > 0 {
        lemma_items_of_start(a, b, (n - 1) as nat);
    }
}

/// And so are the first fields of an object.
proof fn lemma_fields_of_start(a: Seq<(Seq<char>, JsonView)>, b: Seq<(Seq<char>, JsonView)>, n: nat)
    requires
        n <= a.len(),
        n <= b.len(),
        forall|i: int| 0 <= i < n ==> a[i] == b[i],
    ensures
        json::fields_text(a, n) == json::fields_text(b, n),
    decreases n,
{
    if n > 0 {
        lemma_fields_of_start(a, b, (n - 1) as nat);
    }
}

/// How texts are written: character by character between quotes. A quote and a backslash
/// have a backslash before them; line feed, carriage return and tab have letters of their
/// own; other control characters are written as their number in four hexadecimal digits;
/// and all others stand for themselves.
pub proof fn law_texts_are_escaped(s: Seq<char>, c: char)
    ensures
        json::rendered(JsonView::Str(Seq::empty())) == seq!['"', '"'],
        ({
            let n = c as u32;
            let hex = seq!['0', '1', '2', '3', '4', '5', '6', '7', '8', '9', 'a', 'b', 'c', 'd', 'e', 'f'];
            let written = if c == '"' || c == '\\' {
                seq!['\\', c]
            } else if n == 10 {
                seq!['\\', 'n']
            } else if n == 13 {
                seq!['\\', 'r']
            } else if n == 9 {
                seq!['\\', 't']
            } else if n < 32 {
                seq!['\\', 'u', '0', '0', hex[n as int / 16], hex[n as int % 16]]
            } else {
                seq![c]
            };
            json::rendered(JsonView::Str(s.push(c))) == json::rendered(JsonView::Str(s)).drop_last() + written + seq!['"']
        }),
{
    assert(json::rendered(JsonView::Str(Seq::empty())) =~= seq!['"', '"']);
    assert(s.push(c).drop_last() =~= s);
    let n = c as u32;
    let hex = seq!['0', '1', '2', '3', '4', '5', '6', '7', '8', '9', 'a', 'b', 'c', 'd', 'e', 'f'];
    if n < 32 {
        assert forall|d: int| 0 <= d < 16 implies json::hex_digit(d as nat) == #[trigger] hex[d] by {
        }
        assert(json::hex_digit((n / 16) as nat) == hex[n as int / 16]);
        assert(json::hex_digit((n % 16) as nat) == hex[n as int % 16]);
    }
    let a = json::rendered(JsonView::Str(s));
    assert(a.drop_last() =~= seq!['"'] + json::escaped(s));
    assert(json::rendered(JsonView::Str(s.push(c))) =~= a.drop_last() + json::escape(c) + seq!['"']);
}

/// How a field whose value has no quotes is read: the name is what stands between the
/// first two quotes, and the value is what comes after colons and white space, up to a comma
/// or brace, without white space around it. Reading goes on after commas and white space. A
/// field without a name is left out.
pub proof fn law_bare_values_are_trimmed(
    lead: Seq<char>,
    name: Seq<char>,
    gap: Seq<char>,
    value: Seq<char>,
    tail: Seq<char>,
    skipped: int,
)
    requires
        value.len() > 0,
        forall|i: int| 0 <= i < lead.len() ==> (#[trigger] lead[i]) != '"',
        forall|i: int| 0 <= i < name.len() ==> (#[trigger] name[i]) != '"',
        forall|i: int| 0 <= i < gap.len() ==> (#[trigger] gap[i]) == ':' || text::is_space(gap[i]),
        forall|i: int| 0 <= i < value.len() ==> (#[trigger] value[i]) != ',' && value[i] != '}',
        value[0] != '"' && value[0] != ':' && !text::is_space(value[0]),
        tail.len() > 0 ==> tail[0] == ',' || tail[0] == '}',
        0 <= skipped <= tail.len(),
        forall|i: int| 0 <= i < skipped ==> (#[trigger] tail[i]) == ',' || text::is_space(tail[i]),
        skipped < tail.len() ==> tail[skipped] != ',' && !text::is_space(tail[skipped]),
    ensures
        ({
            let s = lead + seq!['"'] + name + seq!['"'] + gap + value + tail;
            let next = s.len() - tail.len() + skipped;
            json::fields_from(s, 0) == (if name.len() > 0 {
                seq![(name, text::trimmed(value))]
            } else {
                Seq::empty()
            }) + (if skipped < tail.len() {
                json::fields_from(s, next)
            } else {
                Seq::empty()
            })
        }),
{
    let s = lead + seq!['"'] + name + seq!['"'] + gap + value + tail;
    let quote = |c: char| c != '"';
    let open = lead.len() as int;
    let close = open + 1 + name.len();
    let start = close + 1 + gap.len();
    let n = start + value.len();
    assert forall|k: int| 0 <= k < open implies quote(#[trigger] s[k]) by {
        assert(s[k] == lead[k]);
    }
    assert(s[open] == '"');
    lemma_run(s, 0, open, quote);
    assert forall|k: int| open + 1 <= k < close implies quote(#[trigger] s[k]) by {
        assert(s[k] == name[k - open - 1]);
    }
    assert(s[close] == '"');
    lemma_run(s, open + 1, close, quote);
    let between = |c: char| c == ':' || text::is_space(c);
    assert forall|k: int| close + 1 <= k < start implies between(#[trigger] s[k]) by {
        assert(s[k] == gap[k - close - 1]);
    }
    assert(s[start] == value[0]);
    lemma_run(s, close + 1, start, between);
    let bare = |c: char| c != ',' && c != '}';
    assert forall|k: int| start <= k < n implies bare(#[trigger] s[k]) by {
        assert(s[k] == value[k - start]);
    }
    if tail.len() > 0 {
        assert(s[n] == tail[0]);
    }
    lemma_run(s, start, n, bare);
    let separator = |c: char| c == ',' || text::is_space(c);
    assert forall|k: int| n <= k < n + skipped implies separator(#[trigger] s[k]) by {
        assert(s[k] == tail[k - n]);
    }
    if skipped < tail.len() {
        assert(s[n + skipped] == tail[skipped]);
    }
    lemma_run(s, n, n + skipped, separator);
    assert(s.subrange(open + 1, close) =~= name);
    assert(s.subrange(start, n) =~= value);
}

/// How a value in quotes is read: up to the closing quote, or to the end if there is none;
/// a backslash makes the character after it stand for itself.
pub proof fn law_backslashes_take_characters_as_they_are(s: Seq<char>, i: int)
    requires
        0 <= i < s.len(),
    ensures
        ({
            let (value, end) = json::quoted_value(s, i, false);
            if s[i] == '"' {
                value == Seq::<char>::empty() && end == i + 1
            } else if s[i] != '\\' {
                let (rest, last) = json::quoted_value(s, i + 1, false);
                value == seq![s[i]] + rest && end == last
            } else if i + 1 < s.len() {
                let (rest, last) = json::quoted_value(s, i + 2, false);
                value == seq![s[i + 1]] + rest && end == last
            } else {
                value == Seq::<char>::empty() && end == s.len()
            }
        }),
        json::quoted_value(s, s.len() as int, false) == (Seq::<char>::empty(), s.len() as int),
{
    reveal_with_fuel(json::quoted_value, 3);
}

/// Whether `s` is what stands from `i` to `j` in a text, with nothing but opening braces
/// before and nothing but closing ones after.
pub open spec fn within_braces(t: Seq<char>, s: Seq<char>, i: int, j: int) -> bool {
    &&& 0 <= i <= j <= t.len()
    &&& s == t.subrange(i, j)
    &&& forall|k: int| 0 <= k < i ==> (#[trigger] t[k]) == '{'
    &&& forall|k: int| j <= k < t.len() ==> (#[trigger] t[k]) == '}'
}

/// What is read of an object is what stands between its braces, all of those at the
/// beginning and at the end, and white space around them aside.
pub proof fn law_braces_are_taken_off(body: Seq<char>)
    ensures
        json::inside(body).len() > 0 ==> json::inside(body)[0] != '{' && json::inside(body).last() != '}',
        exists|i: int, j: int| #[trigger] within_braces(text::trimmed(body), json::inside(body), i, j),
        json::flat_fields(body) == json::by_name(json::fields_from(json::inside(body), 0)),
{
    let t = text::trimmed(body);
    let (head, end) = (|c: char| c == '{', |c: char| c == '}');
    let i = text::past(t, 0, head);
    text::law_runs_are_taken_whole(t, 0, head);
    let rest = t.skip(i);
    let n = text::before(rest, rest.len() as int, end);
    text::law_runs_at_the_end_are_taken_whole(rest, rest.len() as int, end);
    let s = json::inside(body);
    assert(s =~= t.subrange(i, i + n));
    assert forall|k: int| 0 <= k < i implies (#[trigger] t[k]) == '{' by {
        assert(head(t[k]));
    }
    assert forall|k: int| i + n <= k < t.len() implies (#[trigger] t[k]) == '}' by {
        assert(end(rest[k - i]));
    }
    if n > 0 {
        assert(!head(t[i]));
        assert(!end(rest[n - 1]));
        assert(s[0] == t[i]);
        assert(s.last() == rest[n - 1]);
    }
    assert(within_braces(t, s, i, i + n));
}

/// Of several fields with one name the last counts.
pub proof fn law_the_last_field_counts(fields: Seq<(Seq<char>, Seq<char>)>, i: int)
    requires
        0 <= i < fields.len(),
        forall|j: int| i < j < fields.len() ==> (#[trigger] fields[j]).0 != fields[i].0,
    ensures
        json::by_name(fields).contains_key(fields[i].0),
        json::by_name(fields)[fields[i].0] == fields[i].1,
    decreases fields.len(),
{
    if i < fields.len() - 1 {
        assert(fields[fields.len() - 1].0 != fields[i].0);
        law_the_last_field_counts(fields.drop_last(), i);
    }
}

} // verus!
