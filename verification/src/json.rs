//! Just enough JSON for the console: writing any value, and reading flat objects.

use vstd::prelude::*;

use crate::binary64;
use crate::sorted_map::SortedMap;
use crate::text;

verus! {

/// A JSON value, for writing. Numbers are whole.
pub enum Json {
    Null,
    Bool(bool),
    Num(u64),
    Str(String),
    Arr(Vec<Json>),
    Obj(Vec<(String, Json)>),
}

/// A JSON value as a value.
pub enum JsonView {
    Null,
    Bool(bool),
    Num(u64),
    Str(Seq<char>),
    Arr(Seq<JsonView>),
    Obj(Seq<(Seq<char>, JsonView)>),
}

impl View for Json {
    type V = JsonView;

    open spec fn view(&self) -> JsonView {
        json_view(*self)
    }
}

/// What a JSON value is.
pub open spec fn json_view(j: Json) -> JsonView
    decreases j,
{
    match j {
        Json::Null => JsonView::Null,
        Json::Bool(b) => JsonView::Bool(b),
        Json::Num(n) => JsonView::Num(n),
        Json::Str(s) => JsonView::Str(s@),
        Json::Arr(items) => JsonView::Arr(
            Seq::new(
                items@.len(),
                |i: int|
                    if 0 <= i < items@.len() {
                        json_view(items@[i])
                    } else {
                        JsonView::Null
                    },
            ),
        ),
        Json::Obj(fields) => JsonView::Obj(
            Seq::new(
                fields@.len(),
                |i: int|
                    if 0 <= i < fields@.len() {
                        (fields@[i].0@, json_view(fields@[i].1))
                    } else {
                        (Seq::empty(), JsonView::Null)
                    },
            ),
        ),
    }
}

/// A hexadecimal digit.
pub open spec fn hex_digit(d: nat) -> char {
    if d < 10 { (48 + d) as char } else { (87 + d) as char }
}

/// How a character is written within quotes.
pub open spec fn escape(c: char) -> Seq<char> {
    let n = c as u32;
    if c == '"' {
        seq!['\\', '"']
    } else if c == '\\' {
        seq!['\\', '\\']
    } else if c == '\n' {
        seq!['\\', 'n']
    } else if c == '\r' {
        seq!['\\', 'r']
    } else if c == '\t' {
        seq!['\\', 't']
    } else if n < 0x20 {
        seq!['\\', 'u', '0', '0', hex_digit((n / 16) as nat), hex_digit((n % 16) as nat)]
    } else {
        seq![c]
    }
}

/// How a text is written within quotes.
pub open spec fn escaped(s: Seq<char>) -> Seq<char>
    decreases s.len(),
{
    if s.len() == 0 {
        Seq::empty()
    } else {
        escaped(s.drop_last()) + escape(s.last())
    }
}

/// A text in quotes.
pub open spec fn quoted(s: Seq<char>) -> Seq<char> {
    seq!['"'] + escaped(s) + seq!['"']
}

/// How a value is written.
pub open spec fn rendered(j: JsonView) -> Seq<char>
    decreases j, 0nat,
{
    match j {
        JsonView::Null => "null"@,
        JsonView::Bool(b) => if b { "true"@ } else { "false"@ },
        JsonView::Num(n) => text::decimal(binary64::shown(n)),
        JsonView::Str(s) => quoted(s),
        JsonView::Arr(items) => seq!['['] + items_text(items, items.len()) + seq![']'],
        JsonView::Obj(fields) => seq!['{'] + fields_text(fields, fields.len()) + seq!['}'],
    }
}

/// How the first `n` items of an array are written.
pub open spec fn items_text(items: Seq<JsonView>, n: nat) -> Seq<char>
    decreases items, n,
{
    if n == 0 || n > items.len() {
        Seq::empty()
    } else {
        items_text(items, (n - 1) as nat) + (if n > 1 { seq![','] } else { Seq::empty() }) + rendered(
            items[n - 1],
        )
    }
}

/// How the first `n` fields of an object are written.
pub open spec fn fields_text(fields: Seq<(Seq<char>, JsonView)>, n: nat) -> Seq<char>
    decreases fields, n,
{
    if n == 0 || n > fields.len() {
        Seq::empty()
    } else {
        fields_text(fields, (n - 1) as nat) + (if n > 1 { seq![','] } else { Seq::empty() }) + quoted(
            fields[n - 1].0,
        ) + seq![':'] + rendered(fields[n - 1].1)
    }
}

/// Writes a character within quotes.
fn push_escaped(out: &mut String, c: char)
    ensures
        final(out)@ == old(out)@ + escape(c),
{
    let n: u32 = c as u32;
    if c == '"' {
        out.push('\\');
        out.push('"');
    } else if c == '\\' {
        out.push('\\');
        out.push('\\');
    } else if c == '\n' {
        out.push('\\');
        out.push('n');
    } else if c == '\r' {
        out.push('\\');
        out.push('r');
    } else if c == '\t' {
        out.push('\\');
        out.push('t');
    } else if n < 0x20 {
        out.push('\\');
        out.push('u');
        out.push('0');
        out.push('0');
        out.push(hex_char((n / 16) as u8));
        out.push(hex_char((n % 16) as u8));
    } else {
        out.push(c);
    }
    assert(out@ =~= old(out)@ + escape(c));
}

fn hex_char(d: u8) -> (c: char)
    requires
        d < 16,
    ensures
        c == hex_digit(d as nat),
{
    if d < 10 {
        (48 + d) as char
    } else {
        (87 + d) as char
    }
}

/// Writes a text in quotes.
fn push_quoted(out: &mut String, s: &str)
    ensures
        final(out)@ == old(out)@ + quoted(s@),
{
    let cs = text::chars_of(s);
    let ghost start = out@;
    out.push('"');
    let mut i: usize = 0;
    assert(out@ =~= start + seq!['"'] + escaped(cs@.take(0)));
    while i < cs.len()
        invariant
            i <= cs@.len(),
            out@ == start + seq!['"'] + escaped(cs@.take(i as int)),
        decreases cs.len() - i,
    {
        push_escaped(out, cs[i]);
        proof {
            let next = cs@.take(i + 1);
            assert(next.drop_last() =~= cs@.take(i as int));
            assert(next.last() == cs@[i as int]);
            assert(out@ =~= start + seq!['"'] + escaped(next));
        }
        i += 1;
    }
    out.push('"');
    assert(cs@.take(cs@.len() as int) =~= cs@);
    assert(out@ =~= start + quoted(s@));
}

impl Json {
    pub fn str(s: &str) -> (j: Json)
        ensures
            j@ == JsonView::Str(s@),
    {
        Json::Str(text::copy(s))
    }

    pub fn num(n: u64) -> (j: Json)
        ensures
            j@ == JsonView::Num(n),
    {
        Json::Num(n)
    }

    /// Writes the value as text.
    pub fn render(&self) -> (s: String)
        ensures
            s@ == rendered(self@),
    {
        let mut out = String::new();
        self.write(&mut out);
        assert(out@ =~= rendered(self@));
        out
    }

    fn write(&self, out: &mut String)
        ensures
            final(out)@ == old(out)@ + rendered(self@),
        decreases self,
    {
        let ghost start = out@;
        match self {
            Json::Null => {
                out.append("null");
            },
            Json::Bool(b) => {
                if *b {
                    out.append("true");
                } else {
                    out.append("false");
                }
            },
            Json::Num(n) => {
                out.append(text::wide_decimal_text(binary64::shown_as(*n)).as_str());
            },
            Json::Str(s) => {
                push_quoted(out, s.as_str());
            },
            Json::Arr(items) => {
                let ghost vs = self@->Arr_0;
                out.push('[');
                let mut i: usize = 0;
                assert(out@ =~= start + seq!['['] + items_text(vs, 0));
                while i < items.len()
                    invariant
                        *self == Json::Arr(*items),
                        self@ == JsonView::Arr(vs),
                        i <= items@.len(),
                        vs.len() == items@.len(),
                        out@ == start + seq!['['] + items_text(vs, i as nat),
                    decreases items.len() - i,
                {
                    let ghost sofar = out@;
                    if i > 0 {
                        out.push(',');
                    }
                    assert(decreases_to!(self => items@[i as int]));
                    items[i].write(out);
                    proof {
                        assert(vs[i as int] == items@[i as int]@);
                        assert(out@ =~= start + seq!['['] + items_text(vs, (i + 1) as nat));
                    }
                    i += 1;
                }
                out.push(']');
                assert(out@ =~= start + rendered(self@));
            },
            Json::Obj(fields) => {
                let ghost vs = self@->Obj_0;
                out.push('{');
                let mut i: usize = 0;
                assert(out@ =~= start + seq!['{'] + fields_text(vs, 0));
                while i < fields.len()
                    invariant
                        *self == Json::Obj(*fields),
                        self@ == JsonView::Obj(vs),
                        i <= fields@.len(),
                        vs.len() == fields@.len(),
                        out@ == start + seq!['{'] + fields_text(vs, i as nat),
                    decreases fields.len() - i,
                {
                    if i > 0 {
                        out.push(',');
                    }
                    push_quoted(out, fields[i].0.as_str());
                    out.push(':');
                    assert(decreases_to!(self => fields@[i as int].1));
                    fields[i].1.write(out);
                    proof {
                        assert(vs[i as int] == (fields@[i as int].0@, fields@[i as int].1@));
                        assert(out@ =~= start + seq!['{'] + fields_text(vs, (i + 1) as nat));
                    }
                    i += 1;
                }
                out.push('}');
                assert(out@ =~= start + rendered(self@));
            },
        }
    }
}

/// The value that starts at `i` of a quoted text, up to the closing quote, and
/// where it ends. A backslash makes the next character stand for itself.
pub open spec fn quoted_value(s: Seq<char>, i: int, backslash: bool) -> (Seq<char>, int)
    decreases s.len() - i,
{
    if !(0 <= i < s.len()) {
        (Seq::empty(), i)
    } else if !backslash && s[i] == '"' {
        (Seq::empty(), i + 1)
    } else if !backslash && s[i] == '\\' {
        quoted_value(s, i + 1, true)
    } else {
        let (rest, end) = quoted_value(s, i + 1, false);
        (seq![s[i]] + rest, end)
    }
}

/// The fields of a flat object from place `i` on, in order: a name in quotes,
/// anything that is not a value, and a value, in quotes or up to the next comma or
/// closing brace. Fields without a name are left out, and so is a last one without
/// a value.
pub open spec fn fields_from(s: Seq<char>, i: int) -> Seq<(Seq<char>, Seq<char>)>
    decreases s.len() - i,
{
    let open = text::past(s, i, |c: char| c != '"');
    let close = text::past(s, open + 1, |c: char| c != '"');
    let name = s.subrange(open + 1, close);
    let after = if close < s.len() { close + 1 } else { close };
    let start = text::past(s, after, |c: char| c == ':' || text::is_space(c));
    let bare_end = text::past(s, start, |c: char| c != ',' && c != '}');
    let (value, end) = if start < s.len() && s[start] == '"' {
        quoted_value(s, start + 1, false)
    } else {
        (text::trimmed(s.subrange(start, bare_end)), bare_end)
    };
    let next = text::past(s, end, |c: char| c == ',' || text::is_space(c));
    if !(0 <= i) || open >= s.len() || start >= s.len() {
        Seq::empty()
    } else {
        (if name.len() > 0 { seq![(name, value)] } else { Seq::empty() }) + (if i < next < s.len() {
            fields_from(s, next)
        } else {
            Seq::empty()
        })
    }
}

/// The fields by name; of several with one name, the last.
pub open spec fn by_name(fields: Seq<(Seq<char>, Seq<char>)>) -> Map<Seq<char>, Seq<char>>
    decreases fields.len(),
{
    if fields.len() == 0 {
        Map::empty()
    } else {
        by_name(fields.drop_last()).insert(fields.last().0, fields.last().1)
    }
}

/// What is between the braces of an object.
pub open spec fn inside(body: Seq<char>) -> Seq<char> {
    text::without_tail(
        text::without_head(text::trimmed(body), |c: char| c == '{'),
        |c: char| c == '}',
    )
}

/// The fields of a flat object.
pub open spec fn flat_fields(body: Seq<char>) -> Map<Seq<char>, Seq<char>> {
    by_name(fields_from(inside(body), 0))
}

/// The fields of a flat object, by name.
pub struct Fields {
    values: SortedMap<String, String>,
}

impl View for Fields {
    type V = Map<Seq<char>, Seq<char>>;

    closed spec fn view(&self) -> Map<Seq<char>, Seq<char>> {
        self.values@.map_values(|v: String| v@)
    }
}

impl Fields {
    pub closed spec fn wf(&self) -> bool {
        self.values.wf()
    }

    /// The value of a field.
    pub fn get(&self, name: &str) -> (r: Option<&String>)
        requires
            self.wf(),
        ensures
            match r {
                Some(v) => self@.contains_key(name@) && self@[name@] == v@,
                None => !self@.contains_key(name@),
            },
    {
        self.values.get(&text::copy(name))
    }
}

/// Where the run of characters up to a quote ends.
fn find_quote(s: &Vec<char>, i: usize) -> (r: usize)
    requires
        i <= s@.len(),
    ensures
        r == text::past(s@, i as int, |c: char| c != '"'),
        i <= r <= s@.len(),
{
    let ghost p = |c: char| c != '"';
    let mut k: usize = i;
    while k < s.len() && s[k] != '"'
        invariant
            i <= k <= s@.len(),
            p == (|c: char| c != '"'),
            text::past(s@, i as int, p) == text::past(s@, k as int, p),
        decreases s.len() - k,
    {
        k += 1;
    }
    k
}

/// Where the run of separators ends: white space and the given character.
fn skip_separators(s: &Vec<char>, i: usize, mark: char) -> (r: usize)
    requires
        i <= s@.len(),
    ensures
        r == text::past(s@, i as int, |c: char| c == mark || text::is_space(c)),
        i <= r <= s@.len(),
{
    let ghost p = |c: char| c == mark || text::is_space(c);
    let mut k: usize = i;
    while k < s.len() && (s[k] == mark || text::space(s[k]))
        invariant
            i <= k <= s@.len(),
            p == (|c: char| c == mark || text::is_space(c)),
            text::past(s@, i as int, p) == text::past(s@, k as int, p),
        decreases s.len() - k,
    {
        k += 1;
    }
    k
}

/// Where a bare value ends.
fn find_end(s: &Vec<char>, i: usize) -> (r: usize)
    requires
        i <= s@.len(),
    ensures
        r == text::past(s@, i as int, |c: char| c != ',' && c != '}'),
        i <= r <= s@.len(),
{
    let ghost p = |c: char| c != ',' && c != '}';
    let mut k: usize = i;
    while k < s.len() && s[k] != ',' && s[k] != '}'
        invariant
            i <= k <= s@.len(),
            p == (|c: char| c != ',' && c != '}'),
            text::past(s@, i as int, p) == text::past(s@, k as int, p),
        decreases s.len() - k,
    {
        k += 1;
    }
    k
}

/// Reads a quoted value.
fn read_quoted(s: &Vec<char>, i: usize) -> (r: (Vec<char>, usize))
    requires
        i <= s@.len(),
    ensures
        (r.0@, r.1 as int) == quoted_value(s@, i as int, false),
        i <= r.1 <= s@.len(),
{
    let mut value: Vec<char> = Vec::new();
    let mut k: usize = i;
    let mut backslash = false;
    let ghost whole = quoted_value(s@, i as int, false);
    assert(value@ + whole.0 =~= whole.0);
    while k < s.len()
        invariant
            i <= k <= s@.len(),
            whole == quoted_value(s@, i as int, false),
            whole.0 == value@ + quoted_value(s@, k as int, backslash).0,
            whole.1 == quoted_value(s@, k as int, backslash).1,
        decreases s.len() - k,
    {
        let c: char = s[k];
        let ghost before = value@;
        if backslash {
            value.push(c);
            backslash = false;
            assert(before + (seq![c] + quoted_value(s@, k + 1, false).0) =~= value@ + quoted_value(
                s@,
                k + 1,
                false,
            ).0);
        } else if c == '\\' {
            backslash = true;
        } else if c == '"' {
            assert(value@ + Seq::<char>::empty() =~= value@);
            return (value, k + 1);
        } else {
            value.push(c);
            assert(before + (seq![c] + quoted_value(s@, k + 1, false).0) =~= value@ + quoted_value(
                s@,
                k + 1,
                false,
            ).0);
        }
        k += 1;
    }
    assert(value@ + Seq::<char>::empty() =~= value@);
    (value, k)
}

/// Fields by name are independent of how the listing is cut in two.
proof fn lemma_by_name_step(fields: Seq<(Seq<char>, Seq<char>)>, f: (Seq<char>, Seq<char>))
    ensures
        by_name(fields.push(f)) == by_name(fields).insert(f.0, f.1),
{
    assert(fields.push(f).drop_last() =~= fields);
}

/// Reads a flat object: `{"name": "text" | number | null, ...}`.
pub fn parse_flat(body: &str) -> (r: Fields)
    ensures
        r.wf(),
        r@ == flat_fields(body@),
{
    let all = text::chars_of(body);
    let s = text::strip_tail(&text::strip_head(&text::trim(&all), '{'), '}');
    let mut fields = Fields { values: SortedMap::new() };
    let ghost whole = fields_from(s@, 0);
    let ghost mut done: Seq<(Seq<char>, Seq<char>)> = Seq::empty();
    let mut i: usize = 0;
    let mut more = true;
    proof {
        assert(fields@ =~= Map::empty());
        assert(done + whole =~= whole);
    }
    while more
        invariant
            s@ == inside(body@),
            i <= s@.len(),
            fields.wf(),
            whole == fields_from(s@, 0),
            fields@ == by_name(done),
            more ==> whole == done + fields_from(s@, i as int),
            !more ==> whole == done,
        decreases s.len() - i + (if more { 1int } else { 0int }),
    {
        let ghost at = i as int;
        let open: usize = find_quote(&s, i);
        if open >= s.len() {
            more = false;
            assert(done + Seq::<(Seq<char>, Seq<char>)>::empty() =~= done);
            continue ;
        }
        let close: usize = find_quote(&s, open + 1);
        let name = text::part(&s, open + 1, close);
        let after: usize = if close < s.len() {
            close + 1
        } else {
            close
        };
        let start: usize = skip_separators(&s, after, ':');
        if start >= s.len() {
            more = false;
            assert(done + Seq::<(Seq<char>, Seq<char>)>::empty() =~= done);
            continue ;
        }
        let (value, end): (Vec<char>, usize) = if s[start] == '"' {
            read_quoted(&s, start + 1)
        } else {
            let end: usize = find_end(&s, start);
            (text::trim(&text::part(&s, start, end)), end)
        };
        let next: usize = skip_separators(&s, end, ',');
        let ghost before = fields@;
        let ghost rest = if at < next < s@.len() {
            fields_from(s@, next as int)
        } else {
            Seq::empty()
        };
        if name.len() > 0 {
            let ghost f = (name@, value@);
            fields.values.insert(text::text_of(&name), text::text_of(&value));
            proof {
                assert(fields@ =~= before.insert(f.0, f.1));
                lemma_by_name_step(done, f);
                assert(done + (seq![f] + rest) =~= done.push(f) + rest);
                done = done.push(f);
            }
        } else {
            assert(done + (Seq::<(Seq<char>, Seq<char>)>::empty() + rest) =~= done + rest);
        }
        if next >= s.len() {
            more = false;
            assert(done + rest =~= done);
        } else {
            i = next;
        }
    }
    fields
}

/// The fields of an object as values.
pub open spec fn field_views(fields: Seq<(String, Json)>) -> Seq<(Seq<char>, JsonView)> {
    fields.map_values(|f: (String, Json)| (f.0@, f.1@))
}

/// The items of an array as values.
pub open spec fn item_views(items: Seq<Json>) -> Seq<JsonView> {
    items.map_values(|j: Json| j@)
}

/// Appends a field.
pub fn push_field(fields: &mut Vec<(String, Json)>, name: &str, value: Json)
    ensures
        field_views(final(fields)@) == field_views(old(fields)@).push((name@, value@)),
{
    let ghost v = value@;
    let ghost before = fields@;
    fields.push((text::copy(name), value));
    assert(field_views(fields@) =~= field_views(before).push((name@, v)));
}

/// An object of the given fields.
pub fn object(fields: Vec<(String, Json)>) -> (j: Json)
    ensures
        j@ == JsonView::Obj(field_views(fields@)),
{
    let ghost views = field_views(fields@);
    let j = Json::Obj(fields);
    assert(j@->Obj_0 =~= views);
    j
}

/// Nothing.
pub fn null() -> (j: Json)
    ensures
        j@ == JsonView::Null,
{
    Json::Null
}

/// An array of the given items.
pub fn array(items: Vec<Json>) -> (j: Json)
    ensures
        j@ == JsonView::Arr(item_views(items@)),
{
    let ghost views = item_views(items@);
    let j = Json::Arr(items);
    assert(j@->Arr_0 =~= views);
    j
}

} // verus!
