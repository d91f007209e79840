//! The filter codec: converts a filter value to and from its JSON text blob.
//!
//! Serialization emits an object whose fields appear in declared order and
//! are omitted exactly when absent or (for the exclusion lists) empty:
//! lazy-load options, the optional room restriction, the excluded rooms, the
//! excluded types. Absence and default-valued presence are distinct: the
//! all-default filter still serializes, to the empty object.
//! Deserialization accepts any JSON object of the filter's shape: whitespace
//! is insignificant, fields may come in any order, unknown fields are
//! ignored, and string literals carry the standard escapes.

use vstd::prelude::*;

use crate::errors::{DeserializationError, SerializationError};
use crate::filter::{Filter, FilterView, LazyLoadOptions};
use crate::text::{chars_to_string, push_str, string_to_chars};

verus! {

// ---------------------------------------------------------------------------
// Serialized form
// ---------------------------------------------------------------------------
/// The code point of a character.
pub open spec fn code_of(c: char) -> u32 {
    c as u32
}

/// Two characters with one code point are one character.
pub proof fn lemma_code_injective(a: char, b: char)
    requires
        code_of(a) == code_of(b),
    ensures
        a == b,
{
}

/// The lower-case hexadecimal digit for a value below sixteen.
pub open spec fn hex_char(d: u32) -> char {
    if d == 0 { '0' } else if d == 1 { '1' } else if d == 2 { '2' } else if d == 3 { '3' }
    else if d == 4 { '4' } else if d == 5 { '5' } else if d == 6 { '6' } else if d == 7 { '7' }
    else if d == 8 { '8' } else if d == 9 { '9' } else if d == 10 { 'a' } else if d == 11 { 'b' }
    else if d == 12 { 'c' } else if d == 13 { 'd' } else if d == 14 { 'e' } else { 'f' }
}

/// The escaped form of one character inside a JSON string literal: quote and
/// backslash by their short escapes, the control characters with a short form
/// by it, every other control character as a four-digit escape, everything
/// else as itself.
pub open spec fn escape_char(c: char) -> Seq<char> {
    if c == '"' || c == '\\' {
        seq!['\\', c]
    } else if c == '\u{8}' {
        seq!['\\', 'b']
    } else if c == '\t' {
        seq!['\\', 't']
    } else if c == '\n' {
        seq!['\\', 'n']
    } else if c == '\u{c}' {
        seq!['\\', 'f']
    } else if c == '\r' {
        seq!['\\', 'r']
    } else if code_of(c) < 0x20 {
        seq!['\\', 'u', '0', '0', hex_char(code_of(c) / 16), hex_char(code_of(c) % 16)]
    } else {
        seq![c]
    }
}

/// The escaped form of a whole character sequence.
pub open spec fn escape(s: Seq<char>) -> Seq<char>
    decreases s.len(),
{
    if s.len() == 0 {
        Seq::empty()
    } else {
        escape_char(s[0]) + escape(s.drop_first())
    }
}

/// A JSON string literal: the escaped characters between double quotes.
pub open spec fn json_string(s: Seq<char>) -> Seq<char> {
    seq!['"'] + escape(s) + seq!['"']
}

/// The comma-separated items of a JSON array of string literals.
pub open spec fn json_list_items(xs: Seq<Seq<char>>) -> Seq<char>
    decreases xs.len(),
{
    if xs.len() == 0 {
        Seq::empty()
    } else if xs.len() == 1 {
        json_string(xs[0])
    } else {
        json_string(xs[0]) + seq![','] + json_list_items(xs.drop_first())
    }
}

/// A JSON array of string literals.
pub open spec fn json_list(xs: Seq<Seq<char>>) -> Seq<char> {
    seq!['['] + json_list_items(xs) + seq![']']
}

/// A JSON boolean.
pub open spec fn bool_text(b: bool) -> Seq<char> {
    if b {
        "true"@
    } else {
        "false"@
    }
}

/// Key of the lazy-load field group; its value is the boolean for redundant
/// members, the lazy-load flag itself always being `true` when present.
pub open spec fn lazy_key() -> Seq<char> {
    "\"lazy_load_members\":true,\"include_redundant_members\":"@
}

/// Key of the room restriction field.
pub open spec fn rooms_key() -> Seq<char> {
    "\"rooms\":"@
}

/// Key of the excluded-rooms field.
pub open spec fn not_rooms_key() -> Seq<char> {
    "\"not_rooms\":"@
}

/// Key of the excluded-types field.
pub open spec fn not_types_key() -> Seq<char> {
    "\"not_types\":"@
}

/// The lazy-load field group of a filter: one field when enabled, none when
/// disabled.
pub open spec fn lazy_part(f: FilterView) -> Seq<Seq<char>> {
    match f.lazy_load_options {
        LazyLoadOptions::Disabled => Seq::empty(),
        LazyLoadOptions::Enabled { include_redundant_members } => seq![
            lazy_key() + bool_text(include_redundant_members),
        ],
    }
}

/// The room restriction field of a filter: present exactly when the
/// restriction is present, even when it lists no room.
pub open spec fn rooms_part(f: FilterView) -> Seq<Seq<char>> {
    match f.rooms {
        Option::Some(xs) => seq![rooms_key() + json_list(xs)],
        Option::None => Seq::empty(),
    }
}

/// The excluded-rooms field of a filter: omitted when the list is empty.
pub open spec fn not_rooms_part(f: FilterView) -> Seq<Seq<char>> {
    if f.not_rooms.len() == 0 {
        Seq::empty()
    } else {
        seq![not_rooms_key() + json_list(f.not_rooms)]
    }
}

/// The excluded-types field of a filter: omitted when the list is empty.
pub open spec fn not_types_part(f: FilterView) -> Seq<Seq<char>> {
    if f.not_types.len() == 0 {
        Seq::empty()
    } else {
        seq![not_types_key() + json_list(f.not_types)]
    }
}

/// The fields a filter serializes to, in declared order.
pub open spec fn filter_fields(f: FilterView) -> Seq<Seq<char>> {
    lazy_part(f) + rooms_part(f) + not_rooms_part(f) + not_types_part(f)
}

/// The given fields joined with commas, `first` saying whether anything was
/// already emitted before them, followed by the closing brace.
pub open spec fn fields_rest(fields: Seq<Seq<char>>, first: bool) -> Seq<char>
    decreases fields.len(),
{
    if fields.len() == 0 {
        seq!['}']
    } else if first {
        fields[0] + fields_rest(fields.drop_first(), false)
    } else {
        seq![','] + fields[0] + fields_rest(fields.drop_first(), false)
    }
}

/// The JSON text blob a filter serializes to.
pub open spec fn ser_filter(f: FilterView) -> Seq<char> {
    seq!['{'] + fields_rest(filter_fields(f), true)
}

// ---------------------------------------------------------------------------
// Serializer
// ---------------------------------------------------------------------------
/// The given fields joined with commas, without the closing brace.
pub open spec fn fields_flat(fields: Seq<Seq<char>>, first: bool) -> Seq<char>
    decreases fields.len(),
{
    if fields.len() == 0 {
        Seq::empty()
    } else if first {
        fields[0] + fields_flat(fields.drop_first(), false)
    } else {
        seq![','] + fields[0] + fields_flat(fields.drop_first(), false)
    }
}

/// The flat joined text of a single field: the field itself, behind a comma
/// when something already stands before it.
pub proof fn lemma_fields_flat_single(x: Seq<char>, first: bool)
    ensures
        fields_flat(seq![x], first) == (if first {
            x
        } else {
            seq![','] + x
        }),
{
    assert(seq![x].drop_first() =~= Seq::<Seq<char>>::empty());
    if first {
        assert(x + fields_flat(Seq::<Seq<char>>::empty(), false) =~= x);
    } else {
        assert(seq![','] + x + fields_flat(Seq::<Seq<char>>::empty(), false) =~= seq![','] + x);
    }
}

/// Escaping distributes over concatenation.
pub proof fn lemma_escape_append(a: Seq<char>, b: Seq<char>)
    ensures
        escape(a + b) == escape(a) + escape(b),
    decreases a.len(),
{
    if a.len() == 0 {
        assert(a + b =~= b);
        assert(escape(a) + escape(b) =~= escape(b));
    } else {
        lemma_escape_append(a.drop_first(), b);
        assert((a + b).drop_first() =~= a.drop_first() + b);
        assert((a + b)[0] == a[0]);
        assert(escape_char(a[0]) + (escape(a.drop_first()) + escape(b)) =~= (escape_char(a[0])
            + escape(a.drop_first())) + escape(b));
    }
}

/// The lower-case hexadecimal digit character for a value below sixteen.
fn hex_digit_char(d: u32) -> (c: char)
    requires
        d < 16,
    ensures
        c == hex_char(d),
{
    if d == 0 { '0' } else if d == 1 { '1' } else if d == 2 { '2' } else if d == 3 { '3' }
    else if d == 4 { '4' } else if d == 5 { '5' } else if d == 6 { '6' } else if d == 7 { '7' }
    else if d == 8 { '8' } else if d == 9 { '9' } else if d == 10 { 'a' } else if d == 11 { 'b' }
    else if d == 12 { 'c' } else if d == 13 { 'd' } else if d == 14 { 'e' } else { 'f' }
}

/// Appends the escaped characters of a string slice.
fn push_escaped(out: &mut Vec<char>, s: &str)
    ensures
        final(out)@ == old(out)@ + escape(s@),
{
    let cs = string_to_chars(s);
    let n = cs.len();
    let mut i: usize = 0;
    while i < n
        invariant
            i <= n,
            n == cs.len(),
            cs@ == s@,
            out@ == old(out)@ + escape(s@.take(i as int)),
        decreases n - i,
    {
        let c = cs[i];
        if c == '"' || c == '\\' {
            out.push('\\');
            out.push(c);
        } else if c == '\u{8}' {
            out.push('\\');
            out.push('b');
        } else if c == '\t' {
            out.push('\\');
            out.push('t');
        } else if c == '\n' {
            out.push('\\');
            out.push('n');
        } else if c == '\u{c}' {
            out.push('\\');
            out.push('f');
        } else if c == '\r' {
            out.push('\\');
            out.push('r');
        } else if (c as u32) < 0x20 {
            out.push('\\');
            out.push('u');
            out.push('0');
            out.push('0');
            let hi = hex_digit_char((c as u32) / 16);
            let lo = hex_digit_char((c as u32) % 16);
            out.push(hi);
            out.push(lo);
        } else {
            out.push(c);
        }
        proof {
            lemma_escape_append(s@.take(i as int), seq![s@[i as int]]);
            assert(s@.take(i as int) + seq![s@[i as int]] =~= s@.take(i as int + 1));
            assert(escape(seq![s@[i as int]]) == escape_char(s@[i as int]) + escape(
                seq![s@[i as int]].drop_first(),
            ));
            assert(seq![s@[i as int]].drop_first() =~= Seq::<char>::empty());
            assert(escape_char(s@[i as int]) + Seq::<char>::empty() =~= escape_char(s@[i as int]));
            assert(out@ =~= old(out)@ + escape(s@.take(i as int + 1)));
        }
        i = i + 1;
    }
    proof {
        assert(s@.take(n as int) =~= s@);
    }
}

/// Appends a JSON string literal for the given string.
fn push_json_string(out: &mut Vec<char>, s: &str)
    ensures
        final(out)@ == old(out)@ + json_string(s@),
{
    out.push('"');
    push_escaped(out, s);
    out.push('"');
    proof {
        assert(out@ =~= old(out)@ + json_string(s@));
    }
}

/// A non-empty list grows on the right by a comma and one more literal.
pub proof fn lemma_json_list_items_push(xs: Seq<Seq<char>>, x: Seq<char>)
    requires
        xs.len() >= 1,
    ensures
        json_list_items(xs.push(x)) == json_list_items(xs) + seq![','] + json_string(x),
    decreases xs.len(),
{
    if xs.len() == 1 {
        assert(xs.push(x).drop_first() =~= seq![x]);
        assert(json_list_items(seq![x]) == json_string(x));
        assert(json_string(xs.push(x)[0]) + seq![','] + json_string(x) =~= json_list_items(xs)
            + seq![','] + json_string(x));
    } else {
        lemma_json_list_items_push(xs.drop_first(), x);
        assert(xs.push(x).drop_first() =~= xs.drop_first().push(x));
        assert(json_string(xs[0]) + seq![','] + (json_list_items(xs.drop_first()) + seq![',']
            + json_string(x)) =~= (json_string(xs[0]) + seq![','] + json_list_items(
            xs.drop_first(),
        )) + seq![','] + json_string(x));
    }
}

/// Appends a JSON array of string literals for the given strings.
fn push_json_list(out: &mut Vec<char>, xs: &Vec<String>)
    ensures
        final(out)@ == old(out)@ + json_list(xs.deep_view()),
{
    out.push('[');
    let n = xs.len();
    let mut i: usize = 0;
    while i < n
        invariant
            i <= n,
            n == xs.len(),
            out@ == old(out)@ + seq!['['] + json_list_items(xs.deep_view().take(i as int)),
        decreases n - i,
    {
        if i > 0 {
            out.push(',');
        }
        push_json_string(out, xs[i].as_str());
        proof {
            let pre = xs.deep_view().take(i as int);
            assert(xs.deep_view().take(i as int + 1) =~= pre.push(xs.deep_view()[i as int]));
            assert(xs.deep_view()[i as int] == xs[i as int]@);
            if i == 0 {
                assert(json_list_items(pre.push(xs[i as int]@)) == json_string(xs[i as int]@));
                assert(out@ =~= old(out)@ + seq!['['] + json_list_items(
                    xs.deep_view().take(i as int + 1),
                ));
            } else {
                lemma_json_list_items_push(pre, xs[i as int]@);
                assert(out@ =~= old(out)@ + seq!['['] + json_list_items(
                    xs.deep_view().take(i as int + 1),
                ));
            }
        }
        i = i + 1;
    }
    out.push(']');
    proof {
        assert(xs.deep_view().take(n as int) =~= xs.deep_view());
        assert(out@ =~= old(out)@ + json_list(xs.deep_view()));
    }
}

/// Appends a JSON boolean.
fn push_bool(out: &mut Vec<char>, b: bool)
    ensures
        final(out)@ == old(out)@ + bool_text(b),
{
    if b {
        push_str(out, "true");
    } else {
        push_str(out, "false");
    }
}

/// Appends one list-valued field: the separating comma unless it is the
/// first field, then the key and the serialized list.
#[verifier::rlimit(100)]
fn push_list_field(out: &mut Vec<char>, key: &str, xs: &Vec<String>, first: bool)
    ensures
        final(out)@ == old(out)@ + fields_flat(seq![key@ + json_list(xs.deep_view())], first),
{
    if !first {
        out.push(',');
    }
    push_str(out, key);
    push_json_list(out, xs);
    proof {
        lemma_fields_flat_single(key@ + json_list(xs.deep_view()), first);
        assert(out@ =~= old(out)@ + fields_flat(seq![key@ + json_list(xs.deep_view())], first));
    }
}

/// Appending the joined text of the next fields extends the joined text of
/// the fields done so far.
proof fn lemma_flat_step(done: Seq<Seq<char>>, part: Seq<Seq<char>>, o1: Seq<char>, o2: Seq<char>)
    requires
        o1 == seq!['{'] + fields_flat(done, true),
        o2 == o1 + fields_flat(part, done.len() == 0),
    ensures
        o2 == seq!['{'] + fields_flat(done + part, true),
{
    lemma_fields_flat_split(done, part, true);
    assert((seq!['{'] + fields_flat(done, true)) + fields_flat(part, done.len() == 0) =~= seq![
        '{',
    ] + (fields_flat(done, true) + fields_flat(part, done.len() == 0)));
}

/// Encodes a filter as its JSON text blob. Serialization of a filter never
/// partially succeeds: the result is always the complete blob.
#[verifier::rlimit(100)]
#[verifier::spinoff_prover]
pub fn serialize(filter: &Filter) -> (r: Result<String, SerializationError>)
    ensures
        r matches Ok(s) && s@ == ser_filter(filter@),
{
    let ghost f = filter@;
    let mut out: Vec<char> = Vec::new();
    out.push('{');
    match filter.lazy_load_options {
        LazyLoadOptions::Enabled { include_redundant_members } => {
            push_str(&mut out, "\"lazy_load_members\":true,\"include_redundant_members\":");
            push_bool(&mut out, include_redundant_members);
        },
        LazyLoadOptions::Disabled => {},
    }
    proof {
        match f.lazy_load_options {
            LazyLoadOptions::Enabled { include_redundant_members } => {
                lemma_fields_flat_single(
                    lazy_key() + bool_text(include_redundant_members),
                    true,
                );
            },
            LazyLoadOptions::Disabled => {},
        }
        assert(out@ =~= seq!['{'] + fields_flat(lazy_part(f), true));
    }
    let mut first: bool = matches!(filter.lazy_load_options, LazyLoadOptions::Disabled);
    proof {
        assert(first == (lazy_part(f).len() == 0));
    }
    let ghost o1 = out@;
    match &filter.rooms {
        Some(xs) => {
            push_list_field(&mut out, "\"rooms\":", xs, first);
            proof {
                assert(rooms_part(f) =~~= seq!["\"rooms\":"@ + json_list(xs.deep_view())]);
                assert(out@ == o1 + fields_flat(rooms_part(f), lazy_part(f).len() == 0));
            }
            first = false;
        },
        None => {
            proof {
                assert(out@ =~= o1 + fields_flat(rooms_part(f), lazy_part(f).len() == 0));
            }
        },
    }
    proof {
        lemma_flat_step(lazy_part(f), rooms_part(f), o1, out@);
        assert(first == ((lazy_part(f) + rooms_part(f)).len() == 0));
    }
    let ghost done2 = lazy_part(f) + rooms_part(f);
    let ghost o2 = out@;
    if filter.not_rooms.len() > 0 {
        push_list_field(&mut out, "\"not_rooms\":", &filter.not_rooms, first);
        proof {
            assert(not_rooms_part(f) =~~= seq!["\"not_rooms\":"@ + json_list(f.not_rooms)]);
            assert(out@ == o2 + fields_flat(not_rooms_part(f), done2.len() == 0));
        }
        first = false;
    } else {
        proof {
            assert(out@ =~= o2 + fields_flat(not_rooms_part(f), done2.len() == 0));
        }
    }
    proof {
        lemma_flat_step(done2, not_rooms_part(f), o2, out@);
        assert(first == ((done2 + not_rooms_part(f)).len() == 0));
    }
    let ghost done3 = done2 + not_rooms_part(f);
    let ghost o3 = out@;
    if filter.not_types.len() > 0 {
        push_list_field(&mut out, "\"not_types\":", &filter.not_types, first);
        proof {
            assert(not_types_part(f) =~~= seq!["\"not_types\":"@ + json_list(f.not_types)]);
            assert(out@ == o3 + fields_flat(not_types_part(f), done3.len() == 0));
        }
    } else {
        proof {
            assert(out@ =~= o3 + fields_flat(not_types_part(f), done3.len() == 0));
        }
    }
    proof {
        lemma_flat_step(done3, not_types_part(f), o3, out@);
    }
    out.push('}');
    proof {
        lemma_fields_flat_brace(filter_fields(f), true);
        assert(done3 + not_types_part(f) =~= filter_fields(f));
        assert(out@ =~= ser_filter(f));
    }
    Ok(chars_to_string(&out))
}

/// Splitting a field list splits its flat joined text.
pub proof fn lemma_fields_flat_split(a: Seq<Seq<char>>, b: Seq<Seq<char>>, first: bool)
    ensures
        fields_flat(a + b, first) == fields_flat(a, first) + fields_flat(
            b,
            first && a.len() == 0,
        ),
    decreases a.len(),
{
    if a.len() == 0 {
        assert(a + b =~= b);
        assert(fields_flat(a, first) + fields_flat(b, first) =~= fields_flat(b, first));
    } else {
        lemma_fields_flat_split(a.drop_first(), b, false);
        assert((a + b).drop_first() =~= a.drop_first() + b);
        if first {
            assert(a[0] + (fields_flat(a.drop_first(), false) + fields_flat(b, false)) =~= (a[0]
                + fields_flat(a.drop_first(), false)) + fields_flat(b, false));
        } else {
            assert(seq![','] + a[0] + (fields_flat(a.drop_first(), false) + fields_flat(b, false))
                =~= (seq![','] + a[0] + fields_flat(a.drop_first(), false)) + fields_flat(
                b,
                false,
            ));
        }
    }
}

/// The joined fields followed by the closing brace equal the trailing text.
pub proof fn lemma_fields_flat_brace(fields: Seq<Seq<char>>, first: bool)
    ensures
        fields_rest(fields, first) == fields_flat(fields, first) + seq!['}'],
    decreases fields.len(),
{
    if fields.len() == 0 {
        assert(fields_flat(fields, first) + seq!['}'] =~= seq!['}']);
    } else {
        lemma_fields_flat_brace(fields.drop_first(), false);
        if first {
            assert(fields[0] + (fields_flat(fields.drop_first(), false) + seq!['}']) =~= (fields[0]
                + fields_flat(fields.drop_first(), false)) + seq!['}']);
        } else {
            assert(seq![','] + fields[0] + (fields_flat(fields.drop_first(), false) + seq!['}'])
                =~= (seq![','] + fields[0] + fields_flat(fields.drop_first(), false))
                + seq!['}']);
        }
    }
}

// ---------------------------------------------------------------------------
// Parsed form: standard JSON, insignificant whitespace, any field order,
// unknown fields ignored
// ---------------------------------------------------------------------------
/// The suffix after `k` characters, empty when `k` is out of range.
pub open spec fn advance(s: Seq<char>, k: int) -> Seq<char> {
    if 0 <= k && k <= s.len() {
        s.skip(k)
    } else {
        Seq::empty()
    }
}

/// JSON's insignificant whitespace characters.
pub open spec fn is_ws(c: char) -> bool {
    c == ' ' || c == '\t' || c == '\n' || c == '\r'
}

/// The count of leading whitespace characters.
pub open spec fn ws_len(s: Seq<char>) -> int
    decreases s.len(),
{
    if s.len() > 0 && is_ws(s[0]) {
        1 + ws_len(s.skip(1))
    } else {
        0
    }
}

/// Leading whitespace never exceeds the text.
pub proof fn lemma_ws_len_bound(s: Seq<char>)
    ensures
        0 <= ws_len(s) <= s.len(),
    decreases s.len(),
{
    if s.len() > 0 && is_ws(s[0]) {
        lemma_ws_len_bound(s.skip(1));
    }
}

/// A decimal digit.
pub open spec fn is_digit(c: char) -> bool {
    0x30 <= code_of(c) && code_of(c) <= 0x39
}

/// The count of leading decimal digits.
pub open spec fn digits_len(s: Seq<char>) -> int
    decreases s.len(),
{
    if s.len() > 0 && is_digit(s[0]) {
        1 + digits_len(s.skip(1))
    } else {
        0
    }
}

/// The value of one hexadecimal digit, either case.
pub open spec fn hex_val(c: char) -> Option<u32> {
    let n = code_of(c);
    if 0x30 <= n && n <= 0x39 {
        Option::Some((n - 0x30) as u32)
    } else if 0x61 <= n && n <= 0x66 {
        Option::Some((n - 0x57) as u32)
    } else if 0x41 <= n && n <= 0x46 {
        Option::Some((n - 0x37) as u32)
    } else {
        Option::None
    }
}

/// The value of the four hexadecimal digits at position `i`.
pub open spec fn hex4_at(s: Seq<char>, i: int) -> Option<u32> {
    if 0 <= i && i + 4 <= s.len() {
        match (hex_val(s[i]), hex_val(s[i + 1]), hex_val(s[i + 2]), hex_val(s[i + 3])) {
            (Option::Some(a), Option::Some(b), Option::Some(c), Option::Some(d)) => Option::Some(
                (a * 4096 + b * 256 + c * 16 + d) as u32,
            ),
            _ => Option::None,
        }
    } else {
        Option::None
    }
}

/// The control character with the given code point.
pub open spec fn control_char_of(n: u32) -> char {
    if n == 0x0 { '\u{0}' } else if n == 0x1 { '\u{1}' } else if n == 0x2 { '\u{2}' }
    else if n == 0x3 { '\u{3}' } else if n == 0x4 { '\u{4}' } else if n == 0x5 { '\u{5}' }
    else if n == 0x6 { '\u{6}' } else if n == 0x7 { '\u{7}' } else if n == 0x8 { '\u{8}' }
    else if n == 0x9 { '\u{9}' } else if n == 0xa { '\u{a}' } else if n == 0xb { '\u{b}' }
    else if n == 0xc { '\u{c}' } else if n == 0xd { '\u{d}' } else if n == 0xe { '\u{e}' }
    else if n == 0xf { '\u{f}' } else if n == 0x10 { '\u{10}' } else if n == 0x11 { '\u{11}' }
    else if n == 0x12 { '\u{12}' } else if n == 0x13 { '\u{13}' } else if n == 0x14 { '\u{14}' }
    else if n == 0x15 { '\u{15}' } else if n == 0x16 { '\u{16}' } else if n == 0x17 { '\u{17}' }
    else if n == 0x18 { '\u{18}' } else if n == 0x19 { '\u{19}' } else if n == 0x1a { '\u{1a}' }
    else if n == 0x1b { '\u{1b}' } else if n == 0x1c { '\u{1c}' } else if n == 0x1d { '\u{1d}' }
    else if n == 0x1e { '\u{1e}' } else { '\u{1f}' }
}

/// The table lists each control character under its own code point.
pub proof fn lemma_control_char_of(c: char)
    requires
        code_of(c) < 0x20,
    ensures
        control_char_of(code_of(c)) == c,
{
    assert(code_of(control_char_of(code_of(c))) == code_of(c));
    lemma_code_injective(control_char_of(code_of(c)), c);
}

/// The character a non-control code point denotes. Relies on
/// `char::from_u32`: its result is a function of the code point alone.
pub uninterp spec fn char_of_code(n: u32) -> char;

/// Relies on `char::from_u32`: a character comes back exactly for the code
/// points below 0x110000 that are not surrogates, and it carries the given
/// code point.
pub assume_specification[ char::from_u32 ](u: u32) -> (r: Option<char>)
    ensures
        (u < 0xD800 || (0xE000 <= u && u <= 0x10FFFF)) <==> r is Some,
        r matches Some(c) ==> code_of(c) == u && (u >= 0x20 ==> c == char_of_code(u)),
;

/// The character a four-digit escape payload denotes.
pub open spec fn decoded_char(n: u32) -> char {
    if n < 0x20 {
        control_char_of(n)
    } else {
        char_of_code(n)
    }
}

/// The character a short escape denotes, if it is one.
pub open spec fn esc_char(c: char) -> Option<char> {
    if c == '"' { Option::Some('"') } else if c == '\\' { Option::Some('\\') }
    else if c == '/' { Option::Some('/') } else if c == 'b' { Option::Some('\u{8}') }
    else if c == 'f' { Option::Some('\u{c}') } else if c == 'n' { Option::Some('\n') }
    else if c == 'r' { Option::Some('\r') } else if c == 't' { Option::Some('\t') }
    else { Option::None }
}

/// Parses the body of a JSON string literal, after the opening quote: the
/// decoded characters and the count of consumed characters, closing quote
/// included. The standard escapes are decoded, surrogate pairs combined, and
/// raw control characters rejected.
pub open spec fn parse_jstring_body(s: Seq<char>) -> Option<(Seq<char>, int)>
    decreases s.len(),
{
    if s.len() == 0 {
        Option::None
    } else if s[0] == '"' {
        Option::Some((Seq::empty(), 1int))
    } else if s[0] == '\\' {
        if s.len() < 2 {
            Option::None
        } else if s[1] == 'u' {
            match hex4_at(s, 2) {
                Option::Some(n) => if n < 0xD800 || n >= 0xE000 {
                    match parse_jstring_body(s.skip(6)) {
                        Option::Some((v, m)) => Option::Some((seq![decoded_char(n)] + v, m + 6)),
                        Option::None => Option::None,
                    }
                } else if n < 0xDC00 {
                    if s.len() >= 12 && s[6] == '\\' && s[7] == 'u' {
                        match hex4_at(s, 8) {
                            Option::Some(lo) => if 0xDC00 <= lo && lo < 0xE000 {
                                match parse_jstring_body(s.skip(12)) {
                                    Option::Some((v, m)) => Option::Some(
                                        (
                                            seq![
                                                char_of_code(
                                                    (0x10000 + (n - 0xD800) * 0x400 + (lo
                                                        - 0xDC00)) as u32,
                                                ),
                                            ] + v,
                                            m + 12,
                                        ),
                                    ),
                                    Option::None => Option::None,
                                }
                            } else {
                                Option::None
                            },
                            Option::None => Option::None,
                        }
                    } else {
                        Option::None
                    }
                } else {
                    Option::None
                },
                Option::None => Option::None,
            }
        } else {
            match esc_char(s[1]) {
                Option::Some(c) => match parse_jstring_body(s.skip(2)) {
                    Option::Some((v, m)) => Option::Some((seq![c] + v, m + 2)),
                    Option::None => Option::None,
                },
                Option::None => Option::None,
            }
        }
    } else if code_of(s[0]) < 0x20 {
        Option::None
    } else {
        match parse_jstring_body(s.skip(1)) {
            Option::Some((v, m)) => Option::Some((seq![s[0]] + v, m + 1)),
            Option::None => Option::None,
        }
    }
}

/// Parses a whole JSON string literal, opening quote included.
pub open spec fn parse_jstring(s: Seq<char>) -> Option<(Seq<char>, int)> {
    if s.len() >= 1 && s[0] == '"' {
        match parse_jstring_body(s.skip(1)) {
            Option::Some((v, n)) => Option::Some((v, n + 1)),
            Option::None => Option::None,
        }
    } else {
        Option::None
    }
}

/// The length of the integer part of a JSON number: a single zero, or digits
/// without a leading zero.
pub open spec fn num_int_len(s: Seq<char>) -> Option<int> {
    if s.len() > 0 && s[0] == '0' {
        Option::Some(1int)
    } else if s.len() > 0 && is_digit(s[0]) {
        Option::Some(digits_len(s))
    } else {
        Option::None
    }
}

/// The length of the optional fraction part of a JSON number.
pub open spec fn num_frac_len(s: Seq<char>) -> Option<int> {
    if s.len() > 0 && s[0] == '.' {
        if digits_len(s.skip(1)) > 0 {
            Option::Some(1 + digits_len(s.skip(1)))
        } else {
            Option::None
        }
    } else {
        Option::Some(0int)
    }
}

/// The length of the optional exponent part of a JSON number.
pub open spec fn num_exp_len(s: Seq<char>) -> Option<int> {
    if s.len() > 0 && (s[0] == 'e' || s[0] == 'E') {
        let sgn: int = if s.len() > 1 && (s[1] == '+' || s[1] == '-') {
            1
        } else {
            0
        };
        if digits_len(advance(s, 1 + sgn)) > 0 {
            Option::Some(1 + sgn + digits_len(advance(s, 1 + sgn)))
        } else {
            Option::None
        }
    } else {
        Option::Some(0int)
    }
}

/// The length of a JSON number standing at the front of the text.
pub open spec fn parse_number_len(s: Seq<char>) -> Option<int> {
    let neg: int = if s.len() > 0 && s[0] == '-' {
        1
    } else {
        0
    };
    match num_int_len(advance(s, neg)) {
        Option::Some(a) => match num_frac_len(advance(s, neg + a)) {
            Option::Some(b) => match num_exp_len(advance(s, neg + a + b)) {
                Option::Some(c) => Option::Some(neg + a + b + c),
                Option::None => Option::None,
            },
            Option::None => Option::None,
        },
        Option::None => Option::None,
    }
}

/// A parsed JSON value, as far as the filter's shape cares: booleans, null
/// and string lists are kept, anything else is noted and skipped.
pub ghost enum JsonVal {
    Bool(bool),
    Null,
    Str(Seq<char>),
    StrList(Seq<Seq<char>>),
    Other,
}

/// A one-string list, when the value is a string.
pub open spec fn list_single(v: JsonVal) -> Option<Seq<Seq<char>>> {
    match v {
        JsonVal::Str(x) => Option::Some(seq![x]),
        _ => Option::None,
    }
}

/// A string put in front of a string list, when both are such.
pub open spec fn list_cons(v: JsonVal, rest: Option<Seq<Seq<char>>>) -> Option<Seq<Seq<char>>> {
    match (v, rest) {
        (JsonVal::Str(x), Option::Some(xs)) => Option::Some(seq![x] + xs),
        _ => Option::None,
    }
}

/// Parses one JSON value: a string, an array, a nested object, a boolean,
/// null, or a number.
#[verifier::opaque]
pub open spec fn parse_value(s: Seq<char>) -> Option<(JsonVal, int)>
    decreases s.len(), 0int,
{
    if s.len() == 0 {
        Option::None
    } else if s[0] == '"' {
        match parse_jstring(s) {
            Option::Some((v, n)) => Option::Some((JsonVal::Str(v), n)),
            Option::None => Option::None,
        }
    } else if s[0] == '[' {
        let w = ws_len(s.skip(1));
        let s2 = advance(s.skip(1), w);
        if s2.len() > 0 && s2[0] == ']' {
            Option::Some((JsonVal::StrList(Seq::empty()), 1 + w + 1))
        } else {
            match parse_array_items(s2) {
                Option::Some((ov, n)) => Option::Some(
                    (
                        match ov {
                            Option::Some(xs) => JsonVal::StrList(xs),
                            Option::None => JsonVal::Other,
                        },
                        1 + w + n,
                    ),
                ),
                Option::None => Option::None,
            }
        }
    } else if s[0] == '{' {
        match parse_members(s.skip(1)) {
            Option::Some((_, n)) => Option::Some((JsonVal::Other, 1 + n)),
            Option::None => Option::None,
        }
    } else if "true"@.is_prefix_of(s) {
        Option::Some((JsonVal::Bool(true), "true"@.len() as int))
    } else if "false"@.is_prefix_of(s) {
        Option::Some((JsonVal::Bool(false), "false"@.len() as int))
    } else if "null"@.is_prefix_of(s) {
        Option::Some((JsonVal::Null, "null"@.len() as int))
    } else {
        match parse_number_len(s) {
            Option::Some(n) => if n >= 1 {
                Option::Some((JsonVal::Other, n))
            } else {
                Option::None
            },
            Option::None => Option::None,
        }
    }
}

/// Parses the items of a non-empty JSON array, closing bracket included: the
/// string list they form, if every item is a string.
pub open spec fn parse_array_items(s: Seq<char>) -> Option<(Option<Seq<Seq<char>>>, int)>
    decreases s.len(), 1int,
{
    match parse_value(s) {
        Option::Some((v, n)) => if 1 <= n && n <= s.len() {
            let w = ws_len(s.skip(n));
            let s2 = advance(s.skip(n), w);
            if s2.len() > 0 && s2[0] == ',' {
                let w2 = ws_len(advance(s2, 1));
                let s3 = advance(advance(s2, 1), w2);
                match parse_array_items(s3) {
                    Option::Some((rest, m)) => Option::Some(
                        (list_cons(v, rest), n + w + 1 + w2 + m),
                    ),
                    Option::None => Option::None,
                }
            } else if s2.len() > 0 && s2[0] == ']' {
                Option::Some((list_single(v), n + w + 1))
            } else {
                Option::None
            }
        } else {
            Option::None
        },
        Option::None => Option::None,
    }
}

/// Parses the members of a JSON object, standing right after the opening
/// brace, up to and including the closing brace.
pub open spec fn parse_members(s: Seq<char>) -> Option<(Seq<(Seq<char>, JsonVal)>, int)>
    decreases s.len(), 3int,
{
    let w = ws_len(s);
    let s1 = advance(s, w);
    if s1.len() > 0 && s1[0] == '}' {
        Option::Some((Seq::empty(), w + 1))
    } else {
        match parse_members_items(s1) {
            Option::Some((ms, n)) => Option::Some((ms, w + n)),
            Option::None => Option::None,
        }
    }
}

/// Parses one object member — key, colon, value — and the whitespace after
/// it: the key, the value, and the count of consumed characters, which stops
/// right before the separator.
#[verifier::opaque]
pub open spec fn parse_member_kv(s: Seq<char>) -> Option<(Seq<char>, JsonVal, int)>
    decreases s.len(), 1int,
{
    match parse_jstring(s) {
        Option::Some((k, kn)) => if 1 <= kn && kn <= s.len() {
            let w1 = ws_len(s.skip(kn));
            let s2 = advance(s.skip(kn), w1);
            if s2.len() > 0 && s2[0] == ':' {
                let w2 = ws_len(advance(s2, 1));
                let s3 = advance(advance(s2, 1), w2);
                match parse_value(s3) {
                    Option::Some((v, vn)) => if 1 <= vn && vn <= s3.len() {
                        let w3 = ws_len(advance(s3, vn));
                        Option::Some((k, v, kn + w1 + 1 + w2 + vn + w3))
                    } else {
                        Option::None
                    },
                    Option::None => Option::None,
                }
            } else {
                Option::None
            }
        } else {
            Option::None
        },
        Option::None => Option::None,
    }
}

/// Parses a non-empty run of object members, closing brace included.
#[verifier::opaque]
pub open spec fn parse_members_items(s: Seq<char>) -> Option<(Seq<(Seq<char>, JsonVal)>, int)>
    decreases s.len(), 2int,
{
    match parse_member_kv(s) {
        Option::Some((k, v, n)) => if 1 <= n && n <= s.len() {
            let s4 = s.skip(n);
            if s4.len() > 0 && s4[0] == ',' {
                let w4 = ws_len(advance(s4, 1));
                let s5 = advance(advance(s4, 1), w4);
                match parse_members_items(s5) {
                    Option::Some((ms, mn)) => Option::Some((seq![(k, v)] + ms, n + 1 + w4 + mn)),
                    Option::None => Option::None,
                }
            } else if s4.len() > 0 && s4[0] == '}' {
                Option::Some((seq![(k, v)], n + 1))
            } else {
                Option::None
            }
        } else {
            Option::None
        },
        Option::None => Option::None,
    }
}

/// What the fields seen so far say; a field already seen may not repeat.
pub ghost struct FilterAcc {
    pub llm: Option<bool>,
    pub irm: Option<bool>,
    pub rooms: Option<Option<Seq<Seq<char>>>>,
    pub not_rooms: Option<Seq<Seq<char>>>,
    pub not_types: Option<Seq<Seq<char>>>,
}

/// No field seen yet.
pub open spec fn empty_acc() -> FilterAcc {
    FilterAcc {
        llm: Option::None,
        irm: Option::None,
        rooms: Option::None,
        not_rooms: Option::None,
        not_types: Option::None,
    }
}

/// Takes one member in: a known key must carry a value of its shape and may
/// not repeat — `rooms` also accepts null for an absent restriction — while
/// an unknown key is ignored whatever its value.
#[verifier::opaque]
pub open spec fn acc_add(acc: FilterAcc, k: Seq<char>, v: JsonVal) -> Option<FilterAcc> {
    if k == "lazy_load_members"@ {
        match (acc.llm, v) {
            (Option::None, JsonVal::Bool(b)) => Option::Some(
                FilterAcc { llm: Option::Some(b), ..acc },
            ),
            _ => Option::None,
        }
    } else if k == "include_redundant_members"@ {
        match (acc.irm, v) {
            (Option::None, JsonVal::Bool(b)) => Option::Some(
                FilterAcc { irm: Option::Some(b), ..acc },
            ),
            _ => Option::None,
        }
    } else if k == "rooms"@ {
        match (acc.rooms, v) {
            (Option::None, JsonVal::StrList(xs)) => Option::Some(
                FilterAcc { rooms: Option::Some(Option::Some(xs)), ..acc },
            ),
            (Option::None, JsonVal::Null) => Option::Some(
                FilterAcc { rooms: Option::Some(Option::None), ..acc },
            ),
            _ => Option::None,
        }
    } else if k == "not_rooms"@ {
        match (acc.not_rooms, v) {
            (Option::None, JsonVal::StrList(xs)) => Option::Some(
                FilterAcc { not_rooms: Option::Some(xs), ..acc },
            ),
            _ => Option::None,
        }
    } else if k == "not_types"@ {
        match (acc.not_types, v) {
            (Option::None, JsonVal::StrList(xs)) => Option::Some(
                FilterAcc { not_types: Option::Some(xs), ..acc },
            ),
            _ => Option::None,
        }
    } else {
        Option::Some(acc)
    }
}

/// Takes the members in, in order.
pub open spec fn fold_members(acc: FilterAcc, ms: Seq<(Seq<char>, JsonVal)>) -> Option<FilterAcc>
    decreases ms.len(),
{
    if ms.len() == 0 {
        Option::Some(acc)
    } else {
        match acc_add(acc, ms[0].0, ms[0].1) {
            Option::Some(a) => fold_members(a, ms.drop_first()),
            Option::None => Option::None,
        }
    }
}

/// The filter the seen fields denote: lazy loading is enabled exactly when
/// its flag was present and true, the redundant-members flag counting only
/// then; an absent restriction or exclusion list is unrestricted or empty.
pub open spec fn finish_acc(acc: FilterAcc) -> FilterView {
    FilterView {
        lazy_load_options: match acc.llm {
            Option::Some(true) => LazyLoadOptions::Enabled {
                include_redundant_members: match acc.irm {
                    Option::Some(b) => b,
                    Option::None => false,
                },
            },
            _ => LazyLoadOptions::Disabled,
        },
        rooms: match acc.rooms {
            Option::Some(r) => r,
            Option::None => Option::None,
        },
        not_rooms: match acc.not_rooms {
            Option::Some(xs) => xs,
            Option::None => Seq::empty(),
        },
        not_types: match acc.not_types {
            Option::Some(xs) => xs,
            Option::None => Seq::empty(),
        },
    }
}

/// Parses a filter from its JSON text blob: one object, whitespace around and
/// inside it insignificant, its fields in any order, unknown fields ignored,
/// known fields at most once each and with their own shapes.
pub open spec fn parse_filter(s: Seq<char>) -> Option<FilterView> {
    let w0 = ws_len(s);
    let s1 = advance(s, w0);
    if s1.len() > 0 && s1[0] == '{' {
        match parse_members(s1.skip(1)) {
            Option::Some((ms, n)) => {
                let s2 = advance(s1.skip(1), n);
                if ws_len(s2) == s2.len() {
                    match fold_members(empty_acc(), ms) {
                        Option::Some(acc) => Option::Some(finish_acc(acc)),
                        Option::None => Option::None,
                    }
                } else {
                    Option::None
                }
            },
            Option::None => Option::None,
        }
    } else {
        Option::None
    }
}

// ---------------------------------------------------------------------------
// Deserializer
// ---------------------------------------------------------------------------
/// Skips whitespace from position `i`.
fn skip_ws(s: &Vec<char>, i: usize) -> (j: usize)
    requires
        i <= s.len(),
    ensures
        i <= j <= s.len(),
        j - i == ws_len(s@.skip(i as int)),
{
    let mut j = i;
    while j < s.len() && (s[j] == ' ' || s[j] == '\t' || s[j] == '\n' || s[j] == '\r')
        invariant
            i <= j <= s.len(),
            ws_len(s@.skip(i as int)) == (j - i) + ws_len(s@.skip(j as int)),
        decreases s.len() - j,
    {
        proof {
            assert(s@.skip(j as int)[0] == s@[j as int]);
            assert(s@.skip(j as int).skip(1) =~= s@.skip(j as int + 1));
        }
        j = j + 1;
    }
    proof {
        if j < s.len() {
            assert(s@.skip(j as int)[0] == s@[j as int]);
        }
        assert(ws_len(s@.skip(j as int)) == 0);
    }
    j
}

/// Counts decimal digits from position `i`.
fn scan_digits(s: &Vec<char>, i: usize) -> (j: usize)
    requires
        i <= s.len(),
    ensures
        i <= j <= s.len(),
        j - i == digits_len(s@.skip(i as int)),
{
    let mut j = i;
    while j < s.len() && 0x30 <= s[j] as u32 && s[j] as u32 <= 0x39
        invariant
            i <= j <= s.len(),
            digits_len(s@.skip(i as int)) == (j - i) + digits_len(s@.skip(j as int)),
        decreases s.len() - j,
    {
        proof {
            assert(s@.skip(j as int)[0] == s@[j as int]);
            assert(s@.skip(j as int).skip(1) =~= s@.skip(j as int + 1));
        }
        j = j + 1;
    }
    proof {
        if j < s.len() {
            assert(s@.skip(j as int)[0] == s@[j as int]);
        }
        assert(digits_len(s@.skip(j as int)) == 0);
    }
    j
}

/// The value of one hexadecimal digit character, either case.
fn hex_val_of(c: char) -> (r: Option<u32>)
    ensures
        r == hex_val(c),
{
    let n = c as u32;
    if 0x30 <= n && n <= 0x39 {
        Some(n - 0x30)
    } else if 0x61 <= n && n <= 0x66 {
        Some(n - 0x57)
    } else if 0x41 <= n && n <= 0x46 {
        Some(n - 0x37)
    } else {
        None
    }
}

/// Reads four hexadecimal digits at position `i`.
fn scan_hex4(s: &Vec<char>, i: usize) -> (r: Option<u32>)
    requires
        i <= s.len(),
    ensures
        r == hex4_at(s@.skip(i as int), 0),
        r is Some ==> i + 4 <= s.len(),
{
    if s.len() - i < 4 {
        return None;
    }
    proof {
        assert(s@.skip(i as int)[0] == s@[i as int]);
        assert(s@.skip(i as int)[1] == s@[i as int + 1]);
        assert(s@.skip(i as int)[2] == s@[i as int + 2]);
        assert(s@.skip(i as int)[3] == s@[i as int + 3]);
    }
    let a = hex_val_of(s[i]);
    let b = hex_val_of(s[i + 1]);
    let c = hex_val_of(s[i + 2]);
    let d = hex_val_of(s[i + 3]);
    match (a, b, c, d) {
        (Some(a), Some(b), Some(c), Some(d)) => Some(a * 4096 + b * 256 + c * 16 + d),
        _ => None,
    }
}

/// Scans the body of a JSON string literal, after the opening quote.
#[verifier::rlimit(100)]
#[verifier::spinoff_prover]
fn scan_jstring_body(s: &Vec<char>, i: usize) -> (r: Option<(Vec<char>, usize)>)
    requires
        i <= s.len(),
    ensures
        match r {
            Option::Some(p) => i < p.1 <= s.len() && parse_jstring_body(s@.skip(i as int))
                == Option::Some((p.0@, p.1 - i as int)),
            Option::None => parse_jstring_body(s@.skip(i as int)) is None,
        },
    decreases s@.len() - i,
{
    if i == s.len() {
        return None;
    }
    let c = s[i];
    proof {
        assert(s@.skip(i as int)[0] == s@[i as int]);
    }
    if c == '"' {
        let v: Vec<char> = Vec::new();
        return Some((v, i + 1));
    }
    if c == '\\' {
        if i + 1 >= s.len() {
            proof {
                assert(s@.skip(i as int).len() == s@.len() - i);
            }
            return None;
        }
        let d = s[i + 1];
        proof {
            assert(s@.skip(i as int)[1] == s@[i as int + 1]);
        }
        if d == 'u' {
            let ghost suf = s@.skip(i as int);
            proof {
                assert(suf.skip(2) =~= s@.skip(i as int + 2));
            }
            let hx = scan_hex4(s, i + 2);
            proof {
                assert(hex4_at(suf, 2) == hex4_at(suf.skip(2), 0)) by {
                    if 2 + 4 <= suf.len() {
                        assert(suf.skip(2)[0] == suf[2]);
                        assert(suf.skip(2)[1] == suf[3]);
                        assert(suf.skip(2)[2] == suf[4]);
                        assert(suf.skip(2)[3] == suf[5]);
                    }
                }
            }
            match hx {
                None => {
                    return None;
                },
                Some(n) => {
                    if n < 0xD800 || n >= 0xE000 {
                        let oc = char::from_u32(n);
                        proof {
                            assert(suf.skip(6) =~= s@.skip(i as int + 6));
                        }
                        match (oc, scan_jstring_body(s, i + 6)) {
                            (Some(ch), Some((mut v, j))) => {
                                let ghost pre = v@;
                                v.insert(0, ch);
                                proof {
                                    if n < 0x20 {
                                        lemma_control_char_of(ch);
                                    }
                                    assert(ch == decoded_char(n));
                                    assert(v@ =~= seq![decoded_char(n)] + pre);
                                }
                                Some((v, j))
                            },
                            (_, None) => None,
                            (None, _) => {
                                proof {
                                    assert(false);
                                }
                                None
                            },
                        }
                    } else if n < 0xDC00 {
                        if s.len() - i >= 8 && s[i + 6] == '\\' && s[i + 7] == 'u' {
                            proof {
                                assert(suf[6] == s@[i as int + 6]);
                                assert(suf[7] == s@[i as int + 7]);
                                assert(suf.skip(8) =~= s@.skip(i as int + 8));
                            }
                            let hx2 = scan_hex4(s, i + 8);
                            proof {
                                assert(hex4_at(suf, 8) == hex4_at(suf.skip(8), 0)) by {
                                    if 8 + 4 <= suf.len() {
                                        assert(suf.skip(8)[0] == suf[8]);
                                        assert(suf.skip(8)[1] == suf[9]);
                                        assert(suf.skip(8)[2] == suf[10]);
                                        assert(suf.skip(8)[3] == suf[11]);
                                    }
                                }
                            }
                            match hx2 {
                                None => {
                                    return None;
                                },
                                Some(lo) => {
                                    if 0xDC00 <= lo && lo < 0xE000 {
                                        let cp = 0x10000 + (n - 0xD800) * 0x400 + (lo - 0xDC00);
                                        let oc = char::from_u32(cp);
                                        proof {
                                            assert(suf.skip(12) =~= s@.skip(i as int + 12));
                                            assert(suf.len() >= 12);
                                        }
                                        match (oc, scan_jstring_body(s, i + 12)) {
                                            (Some(ch), Some((mut v, j))) => {
                                                let ghost pre = v@;
                                                v.insert(0, ch);
                                                proof {
                                                    assert(v@ =~= seq![char_of_code(cp)] + pre);
                                                }
                                                Some((v, j))
                                            },
                                            (_, None) => None,
                                            (None, _) => {
                                                proof {
                                                    assert(false);
                                                }
                                                None
                                            },
                                        }
                                    } else {
                                        None
                                    }
                                },
                            }
                        } else {
                            proof {
                                assert(s@.skip(i as int).len() == s@.len() - i);
                                if i + 6 < s.len() {
                                    assert(suf[6] == s@[i as int + 6]);
                                }
                                if i + 7 < s.len() {
                                    assert(suf[7] == s@[i as int + 7]);
                                }
                            }
                            None
                        }
                    } else {
                        None
                    }
                },
            }
        } else {
            let e = if d == '"' {
                Some('"')
            } else if d == '\\' {
                Some('\\')
            } else if d == '/' {
                Some('/')
            } else if d == 'b' {
                Some('\u{8}')
            } else if d == 'f' {
                Some('\u{c}')
            } else if d == 'n' {
                Some('\n')
            } else if d == 'r' {
                Some('\r')
            } else if d == 't' {
                Some('\t')
            } else {
                None
            };
            proof {
                assert(e == esc_char(d));
                assert(s@.skip(i as int).skip(2) =~= s@.skip(i as int + 2));
            }
            match e {
                Some(ch) => match scan_jstring_body(s, i + 2) {
                    Some((mut v, j)) => {
                        let ghost pre = v@;
                        v.insert(0, ch);
                        proof {
                            assert(v@ =~= seq![ch] + pre);
                        }
                        Some((v, j))
                    },
                    None => None,
                },
                None => None,
            }
        }
    } else if (c as u32) < 0x20 {
        None
    } else {
        proof {
            assert(s@.skip(i as int).skip(1) =~= s@.skip(i as int + 1));
        }
        match scan_jstring_body(s, i + 1) {
            Some((mut v, j)) => {
                let ghost pre = v@;
                v.insert(0, c);
                proof {
                    assert(v@ =~= seq![c] + pre);
                }
                Some((v, j))
            },
            None => None,
        }
    }
}

/// Scans a whole JSON string literal, opening quote included.
fn scan_jstring(s: &Vec<char>, i: usize) -> (r: Option<(String, usize)>)
    requires
        i <= s.len(),
    ensures
        match r {
            Option::Some(p) => i < p.1 <= s.len() && parse_jstring(s@.skip(i as int))
                == Option::Some((p.0@, p.1 - i as int)),
            Option::None => parse_jstring(s@.skip(i as int)) is None,
        },
{
    if i < s.len() && s[i] == '"' {
        proof {
            assert(s@.skip(i as int)[0] == s@[i as int]);
            assert(s@.skip(i as int).skip(1) =~= s@.skip(i as int + 1));
        }
        match scan_jstring_body(s, i + 1) {
            Some((v, j)) => Some((chars_to_string(&v), j)),
            None => None,
        }
    } else {
        proof {
            if i < s.len() {
                assert(s@.skip(i as int)[0] == s@[i as int]);
            }
        }
        None
    }
}

/// Scans a JSON number; returns the position after it.
#[verifier::rlimit(100)]
fn scan_number(s: &Vec<char>, i: usize) -> (r: Option<usize>)
    requires
        i <= s.len(),
    ensures
        match r {
            Option::Some(j) => i <= j <= s.len() && parse_number_len(s@.skip(i as int))
                == Option::Some(j - i as int),
            Option::None => parse_number_len(s@.skip(i as int)) is None,
        },
{
    let ghost suf = s@.skip(i as int);
    let i1 = if i < s.len() && s[i] == '-' {
        i + 1
    } else {
        i
    };
    proof {
        if i < s.len() {
            assert(suf[0] == s@[i as int]);
        }
        assert(suf.skip(i1 - i as int) =~= s@.skip(i1 as int));
        assert(advance(suf, i1 - i as int) =~= s@.skip(i1 as int));
    }
    // integer part
    let i2: usize;
    if i1 < s.len() && s[i1] == '0' {
        i2 = i1 + 1;
        proof {
            assert(s@.skip(i1 as int)[0] == s@[i1 as int]);
            assert(num_int_len(s@.skip(i1 as int)) == Option::Some(1int));
        }
    } else if i1 < s.len() && 0x30 <= s[i1] as u32 && s[i1] as u32 <= 0x39 {
        i2 = scan_digits(s, i1);
        proof {
            assert(s@.skip(i1 as int)[0] == s@[i1 as int]);
            assert(num_int_len(s@.skip(i1 as int)) == Option::Some(digits_len(s@.skip(i1 as int))));
        }
    } else {
        proof {
            if i1 < s.len() {
                assert(s@.skip(i1 as int)[0] == s@[i1 as int]);
            }
            assert(num_int_len(s@.skip(i1 as int)) is None);
        }
        return None;
    }
    proof {
        assert(advance(suf, (i1 - i) + (i2 - i1)) =~= s@.skip(i2 as int));
    }
    // fraction part
    let i3: usize;
    if i2 < s.len() && s[i2] == '.' {
        let j = scan_digits(s, i2 + 1);
        proof {
            assert(s@.skip(i2 as int)[0] == s@[i2 as int]);
            assert(s@.skip(i2 as int).skip(1) =~= s@.skip(i2 as int + 1));
        }
        if j == i2 + 1 {
            proof {
                assert(num_frac_len(s@.skip(i2 as int)) is None);
            }
            return None;
        }
        i3 = j;
        proof {
            assert(num_frac_len(s@.skip(i2 as int)) == Option::Some(1 + digits_len(s@.skip(i2 as int + 1))));
        }
    } else {
        i3 = i2;
        proof {
            if i2 < s.len() {
                assert(s@.skip(i2 as int)[0] == s@[i2 as int]);
            }
            assert(num_frac_len(s@.skip(i2 as int)) == Option::Some(0int));
        }
    }
    proof {
        assert(advance(suf, (i1 - i) + (i2 - i1) + (i3 - i2)) =~= s@.skip(i3 as int));
    }
    // exponent part
    let i4: usize;
    if i3 < s.len() && (s[i3] == 'e' || s[i3] == 'E') {
        proof {
            assert(s@.skip(i3 as int)[0] == s@[i3 as int]);
        }
        let isgn = if i3 + 1 < s.len() && (s[i3 + 1] == '+' || s[i3 + 1] == '-') {
            i3 + 2
        } else {
            i3 + 1
        };
        proof {
            if i3 + 1 < s.len() {
                assert(s@.skip(i3 as int)[1] == s@[i3 as int + 1]);
            }
            assert(s@.skip(i3 as int).len() == s@.len() - i3);
            assert(advance(s@.skip(i3 as int), isgn - i3 as int) =~= s@.skip(isgn as int));
        }
        let j = scan_digits(s, isgn);
        if j == isgn {
            proof {
                assert(num_exp_len(s@.skip(i3 as int)) is None);
            }
            return None;
        }
        i4 = j;
        proof {
            assert(num_exp_len(s@.skip(i3 as int)) == Option::Some(
                (isgn - i3 as int) + digits_len(s@.skip(isgn as int)),
            ));
        }
    } else {
        i4 = i3;
        proof {
            if i3 < s.len() {
                assert(s@.skip(i3 as int)[0] == s@[i3 as int]);
            }
            assert(num_exp_len(s@.skip(i3 as int)) == Option::Some(0int));
        }
    }
    Some(i4)
}

/// A scanned JSON value, as far as the filter's shape cares.
pub enum ScannedVal {
    Bool(bool),
    Null,
    Str(String),
    StrList(Vec<String>),
    Other,
}

impl View for ScannedVal {
    type V = JsonVal;

    open spec fn view(&self) -> JsonVal {
        match self {
            ScannedVal::Bool(b) => JsonVal::Bool(*b),
            ScannedVal::Null => JsonVal::Null,
            ScannedVal::Str(s) => JsonVal::Str(s@),
            ScannedVal::StrList(v) => JsonVal::StrList(v.deep_view()),
            ScannedVal::Other => JsonVal::Other,
        }
    }
}

/// Whether the characters at position `i` start with the given prefix.
fn starts_with_at(s: &Vec<char>, i: usize, p: &Vec<char>) -> (r: bool)
    requires
        i <= s.len(),
    ensures
        r == p@.is_prefix_of(s@.skip(i as int)),
{
    if s.len() - i < p.len() {
        return false;
    }
    let n = p.len();
    let mut j: usize = 0;
    while j < n
        invariant
            j <= n,
            n == p.len(),
            i <= s.len(),
            n <= s.len() - i,
            forall|k: int| 0 <= k < j ==> p@[k] == s@.skip(i as int)[k],
        decreases n - j,
    {
        if s[i + j] != p[j] {
            proof {
                assert(s@.skip(i as int)[j as int] == s@[i as int + j]);
                assert(!p@.is_prefix_of(s@.skip(i as int)));
            }
            return false;
        }
        j = j + 1;
    }
    proof {
        assert(p@ =~= s@.skip(i as int).subrange(0, p@.len() as int));
    }
    true
}

/// Scans one JSON value.
#[verifier::rlimit(100)]
#[verifier::spinoff_prover]
fn scan_value(s: &Vec<char>, i: usize) -> (r: Option<(ScannedVal, usize)>)
    requires
        i <= s.len(),
    ensures
        match r {
            Option::Some(p) => i < p.1 <= s.len() && parse_value(s@.skip(i as int))
                == Option::Some((p.0@, p.1 - i as int)),
            Option::None => parse_value(s@.skip(i as int)) is None,
        },
    decreases s@.len() - i, 0int,
{
    reveal(parse_value);
    let ghost suf = s@.skip(i as int);
    if i == s.len() {
        return None;
    }
    let c = s[i];
    proof {
        assert(suf[0] == s@[i as int]);
    }
    if c == '"' {
        match scan_jstring(s, i) {
            Some((v, j)) => Some((ScannedVal::Str(v), j)),
            None => None,
        }
    } else if c == '[' {
        proof {
            assert(suf.skip(1) =~= s@.skip(i as int + 1));
        }
        let w = skip_ws(s, i + 1);
        proof {
            assert(advance(suf.skip(1), w - (i + 1) as int) =~= s@.skip(w as int));
        }
        if w < s.len() && s[w] == ']' {
            proof {
                assert(s@.skip(w as int)[0] == s@[w as int]);
            }
            let e: Vec<String> = Vec::new();
            proof {
                assert(e.deep_view() =~~= Seq::<Seq<char>>::empty());
            }
            Some((ScannedVal::StrList(e), w + 1))
        } else {
            proof {
                if w < s.len() {
                    assert(s@.skip(w as int)[0] == s@[w as int]);
                } else {
                    assert(s@.skip(w as int).len() == 0);
                }
            }
            match scan_array_items(s, w) {
                Some((ov, j)) => match ov {
                    Some(xs) => Some((ScannedVal::StrList(xs), j)),
                    None => Some((ScannedVal::Other, j)),
                },
                None => None,
            }
        }
    } else if c == '{' {
        proof {
            assert(suf.skip(1) =~= s@.skip(i as int + 1));
        }
        match scan_members_skip(s, i + 1) {
            Some(j) => Some((ScannedVal::Other, j)),
            None => None,
        }
    } else {
        let t = string_to_chars("true");
        let f = string_to_chars("false");
        let nl = string_to_chars("null");
        proof {
            reveal_strlit("true");
            reveal_strlit("false");
            reveal_strlit("null");
        }
        if starts_with_at(s, i, &t) {
            Some((ScannedVal::Bool(true), i + 4))
        } else if starts_with_at(s, i, &f) {
            Some((ScannedVal::Bool(false), i + 5))
        } else if starts_with_at(s, i, &nl) {
            Some((ScannedVal::Null, i + 4))
        } else {
            match scan_number(s, i) {
                Some(j) => {
                    if j > i {
                        Some((ScannedVal::Other, j))
                    } else {
                        None
                    }
                },
                None => None,
            }
        }
    }
}

/// Scans the items of a non-empty JSON array, closing bracket included.
#[verifier::rlimit(100)]
fn scan_array_items(s: &Vec<char>, i: usize) -> (r: Option<(Option<Vec<String>>, usize)>)
    requires
        i <= s.len(),
    ensures
        match r {
            Option::Some(p) => i < p.1 <= s.len() && parse_array_items(s@.skip(i as int))
                == Option::Some((opt_deep(p.0), p.1 - i as int)),
            Option::None => parse_array_items(s@.skip(i as int)) is None,
        },
    decreases s@.len() - i, 1int,
{
    reveal(parse_value);
    let ghost suf = s@.skip(i as int);
    match scan_value(s, i) {
        None => None,
        Some((v, j)) => {
            proof {
                assert(suf.skip(j - i as int) =~= s@.skip(j as int));
            }
            let w = skip_ws(s, j);
            proof {
                assert(advance(suf.skip(j - i as int), w - j as int) =~= s@.skip(w as int));
            }
            if w < s.len() && s[w] == ',' {
                proof {
                    assert(s@.skip(w as int)[0] == s@[w as int]);
                    assert(advance(s@.skip(w as int), 1) =~= s@.skip(w as int + 1));
                }
                let w2 = skip_ws(s, w + 1);
                proof {
                    assert(advance(s@.skip(w as int + 1), w2 - (w + 1) as int) =~= s@.skip(
                        w2 as int,
                    ));
                }
                match scan_array_items(s, w2) {
                    Some((rest, j2)) => match (v, rest) {
                        (ScannedVal::Str(x), Some(mut xs)) => {
                            let ghost pre = xs.deep_view();
                            xs.insert(0, x);
                            proof {
                                assert(xs.deep_view() =~~= seq![x@] + pre);
                            }
                            Some((Some(xs), j2))
                        },
                        _ => Some((None, j2)),
                    },
                    None => None,
                }
            } else if w < s.len() && s[w] == ']' {
                proof {
                    assert(s@.skip(w as int)[0] == s@[w as int]);
                }
                match v {
                    ScannedVal::Str(x) => {
                        let mut xs: Vec<String> = Vec::new();
                        xs.push(x);
                        proof {
                            assert(xs.deep_view() =~~= seq![xs[0]@]);
                        }
                        Some((Some(xs), w + 1))
                    },
                    _ => Some((None, w + 1)),
                }
            } else {
                proof {
                    if w < s.len() {
                        assert(s@.skip(w as int)[0] == s@[w as int]);
                    } else {
                        assert(s@.skip(w as int).len() == 0);
                    }
                }
                None
            }
        },
    }
}

/// Scans past the members of a nested object, from right after its opening
/// brace to after its closing brace.
fn scan_members_skip(s: &Vec<char>, i: usize) -> (r: Option<usize>)
    requires
        i <= s.len(),
    ensures
        match r {
            Option::Some(j) => i < j <= s.len() && (parse_members(s@.skip(i as int)) matches
                Option::Some(q) && q.1 == j - i as int),
            Option::None => parse_members(s@.skip(i as int)) is None,
        },
    decreases s@.len() - i, 3int,
{
    reveal(parse_members_items);
    let ghost suf = s@.skip(i as int);
    let w = skip_ws(s, i);
    proof {
        assert(advance(suf, w - i as int) =~= s@.skip(w as int));
    }
    if w < s.len() && s[w] == '}' {
        proof {
            assert(s@.skip(w as int)[0] == s@[w as int]);
        }
        return Some(w + 1);
    }
    proof {
        if w < s.len() {
            assert(s@.skip(w as int)[0] == s@[w as int]);
        } else {
            assert(s@.skip(w as int).len() == 0);
        }
    }
    match scan_members_items_skip(s, w) {
        Some(j) => Some(j),
        None => None,
    }
}

/// Scans one object member — key, colon, value — and the whitespace after
/// it; returns the position of the separator.
#[verifier::rlimit(100)]
#[verifier::spinoff_prover]
fn scan_member_kv(s: &Vec<char>, i: usize) -> (r: Option<(String, ScannedVal, usize)>)
    requires
        i <= s.len(),
    ensures
        match r {
            Option::Some(p) => i < p.2 <= s.len() && parse_member_kv(s@.skip(i as int))
                == Option::Some((p.0@, p.1@, p.2 - i as int)),
            Option::None => parse_member_kv(s@.skip(i as int)) is None,
        },
    decreases s@.len() - i, 1int,
{
    reveal(parse_member_kv);
    let ghost suf = s@.skip(i as int);
    let (k, j1) = match scan_jstring(s, i) {
        Some(p) => p,
        None => {
            return None;
        },
    };
    proof {
        assert(suf.skip(j1 - i as int) =~= s@.skip(j1 as int));
    }
    let w1 = skip_ws(s, j1);
    proof {
        assert(advance(suf.skip(j1 - i as int), w1 - j1 as int) =~= s@.skip(w1 as int));
    }
    if !(w1 < s.len() && s[w1] == ':') {
        proof {
            if w1 < s.len() {
                assert(s@.skip(w1 as int)[0] == s@[w1 as int]);
            } else {
                assert(s@.skip(w1 as int).len() == 0);
            }
        }
        return None;
    }
    proof {
        assert(s@.skip(w1 as int)[0] == s@[w1 as int]);
        assert(advance(s@.skip(w1 as int), 1) =~= s@.skip(w1 as int + 1));
    }
    let w2 = skip_ws(s, w1 + 1);
    proof {
        assert(advance(s@.skip(w1 as int + 1), w2 - (w1 + 1) as int) =~= s@.skip(w2 as int));
    }
    let (v, j2) = match scan_value(s, w2) {
        Some(p) => p,
        None => {
            return None;
        },
    };
    proof {
        assert(advance(s@.skip(w2 as int), j2 - w2 as int) =~= s@.skip(j2 as int));
    }
    let w3 = skip_ws(s, j2);
    Some((k, v, w3))
}

/// Scans past a non-empty run of members of a nested object, closing brace
/// included.
#[verifier::rlimit(100)]
#[verifier::spinoff_prover]
fn scan_members_items_skip(s: &Vec<char>, i: usize) -> (r: Option<usize>)
    requires
        i <= s.len(),
    ensures
        match r {
            Option::Some(j) => i < j <= s.len() && (parse_members_items(s@.skip(i as int)) matches
                Option::Some(q) && q.1 == j - i as int),
            Option::None => parse_members_items(s@.skip(i as int)) is None,
        },
    decreases s@.len() - i, 2int,
{
    reveal(parse_members_items);
    let ghost suf = s@.skip(i as int);
    let (_k, _v, j) = match scan_member_kv(s, i) {
        Some(p) => p,
        None => {
            return None;
        },
    };
    proof {
        assert(suf.skip(j - i as int) =~= s@.skip(j as int));
    }
    if j < s.len() && s[j] == ',' {
        proof {
            assert(s@.skip(j as int)[0] == s@[j as int]);
            assert(advance(s@.skip(j as int), 1) =~= s@.skip(j as int + 1));
        }
        let w4 = skip_ws(s, j + 1);
        proof {
            assert(advance(s@.skip(j as int + 1), w4 - (j + 1) as int) =~= s@.skip(w4 as int));
        }
        match scan_members_items_skip(s, w4) {
            Some(j3) => Some(j3),
            None => None,
        }
    } else if j < s.len() && s[j] == '}' {
        proof {
            assert(s@.skip(j as int)[0] == s@[j as int]);
        }
        Some(j + 1)
    } else {
        proof {
            if j < s.len() {
                assert(s@.skip(j as int)[0] == s@[j as int]);
            } else {
                assert(s@.skip(j as int).len() == 0);
            }
        }
        None
    }
}

/// The deep view of an optional string vector.
pub open spec fn opt_deep(o: Option<Vec<String>>) -> Option<Seq<Seq<char>>> {
    match o {
        Option::Some(xs) => Option::Some(xs.deep_view()),
        Option::None => Option::None,
    }
}

/// The fields seen so far while scanning an object.
pub(crate) struct ScanAcc {
    pub(crate) llm: Option<bool>,
    pub(crate) irm: Option<bool>,
    pub(crate) rooms: Option<Option<Vec<String>>>,
    pub(crate) not_rooms: Option<Vec<String>>,
    pub(crate) not_types: Option<Vec<String>>,
}

impl View for ScanAcc {
    type V = FilterAcc;

    closed spec fn view(&self) -> FilterAcc {
        FilterAcc {
            llm: self.llm,
            irm: self.irm,
            rooms: match self.rooms {
                Option::Some(r) => Option::Some(opt_deep(r)),
                Option::None => Option::None,
            },
            not_rooms: match self.not_rooms {
                Option::Some(xs) => Option::Some(xs.deep_view()),
                Option::None => Option::None,
            },
            not_types: match self.not_types {
                Option::Some(xs) => Option::Some(xs.deep_view()),
                Option::None => Option::None,
            },
        }
    }
}

/// Takes one scanned member into the seen fields.
fn acc_add_exec(acc: ScanAcc, k: &String, v: ScannedVal) -> (r: Option<ScanAcc>)
    ensures
        match r {
            Option::Some(a) => acc_add(acc@, k@, v@) == Option::Some(a@),
            Option::None => acc_add(acc@, k@, v@) is None,
        },
{
    reveal(acc_add);
    let lazy_k = String::from_str("lazy_load_members");
    let irm_k = String::from_str("include_redundant_members");
    let rooms_k = String::from_str("rooms");
    let nr_k = String::from_str("not_rooms");
    let nt_k = String::from_str("not_types");
    if *k == lazy_k {
        match (&acc.llm, v) {
            (None, ScannedVal::Bool(b)) => Some(ScanAcc { llm: Some(b), ..acc }),
            _ => None,
        }
    } else if *k == irm_k {
        match (&acc.irm, v) {
            (None, ScannedVal::Bool(b)) => Some(ScanAcc { irm: Some(b), ..acc }),
            _ => None,
        }
    } else if *k == rooms_k {
        match (&acc.rooms, v) {
            (None, ScannedVal::StrList(xs)) => Some(ScanAcc { rooms: Some(Some(xs)), ..acc }),
            (None, ScannedVal::Null) => Some(ScanAcc { rooms: Some(None), ..acc }),
            _ => None,
        }
    } else if *k == nr_k {
        match (&acc.not_rooms, v) {
            (None, ScannedVal::StrList(xs)) => Some(ScanAcc { not_rooms: Some(xs), ..acc }),
            _ => None,
        }
    } else if *k == nt_k {
        match (&acc.not_types, v) {
            (None, ScannedVal::StrList(xs)) => Some(ScanAcc { not_types: Some(xs), ..acc }),
            _ => None,
        }
    } else {
        Some(acc)
    }
}

/// Scans the members of an object from right after the opening brace, taking
/// each into the seen fields; stops after the closing brace.
fn scan_members_fold(s: &Vec<char>, i: usize, acc: ScanAcc) -> (r: Option<(ScanAcc, usize)>)
    requires
        i <= s.len(),
    ensures
        match r {
            Option::Some(p) => i < p.1 <= s.len() && (parse_members(s@.skip(i as int)) matches
                Option::Some(q) && q.1 == p.1 - i as int && fold_members(acc@, q.0)
                == Option::Some(p.0@)),
            Option::None => parse_members(s@.skip(i as int)) is None || (parse_members(
                s@.skip(i as int),
            ) matches Option::Some(q) && fold_members(acc@, q.0) is None),
        },
{
    reveal(parse_members_items);
    let ghost suf = s@.skip(i as int);
    let w = skip_ws(s, i);
    proof {
        assert(advance(suf, w - i as int) =~= s@.skip(w as int));
    }
    if w < s.len() && s[w] == '}' {
        proof {
            assert(s@.skip(w as int)[0] == s@[w as int]);
        }
        return Some((acc, w + 1));
    }
    proof {
        if w < s.len() {
            assert(s@.skip(w as int)[0] == s@[w as int]);
        } else {
            assert(s@.skip(w as int).len() == 0);
        }
    }
    match scan_members_items_fold(s, w, acc) {
        Some((a, j)) => Some((a, j)),
        None => None,
    }
}

/// Scans a non-empty run of object members, folding each into the seen
/// fields; stops after the closing brace.
#[verifier::rlimit(100)]
#[verifier::spinoff_prover]
fn scan_members_items_fold(s: &Vec<char>, i: usize, acc: ScanAcc) -> (r: Option<(ScanAcc, usize)>)
    requires
        i <= s.len(),
    ensures
        match r {
            Option::Some(p) => i < p.1 <= s.len() && (parse_members_items(s@.skip(i as int))
                matches Option::Some(q) && q.1 == p.1 - i as int && fold_members(acc@, q.0)
                == Option::Some(p.0@)),
            Option::None => parse_members_items(s@.skip(i as int)) is None || (parse_members_items(
                s@.skip(i as int),
            ) matches Option::Some(q) && fold_members(acc@, q.0) is None),
        },
    decreases s@.len() - i,
{
    reveal(parse_members_items);
    let ghost suf = s@.skip(i as int);
    let (k, v, j) = match scan_member_kv(s, i) {
        Some(p) => p,
        None => {
            return None;
        },
    };
    proof {
        assert(suf.skip(j - i as int) =~= s@.skip(j as int));
    }
    let ghost kk = k@;
    let ghost vv = v@;
    let acc2 = match acc_add_exec(acc, &k, v) {
        Some(a) => a,
        None => {
            proof {
                if j < s.len() {
                    assert(s@.skip(j as int)[0] == s@[j as int]);
                } else {
                    assert(s@.skip(j as int).len() == 0);
                }
                lemma_fold_head(acc@, kk, vv, parse_members_items(suf));
            }
            return None;
        },
    };
    if j < s.len() && s[j] == ',' {
        proof {
            assert(s@.skip(j as int)[0] == s@[j as int]);
            assert(advance(s@.skip(j as int), 1) =~= s@.skip(j as int + 1));
        }
        let w4 = skip_ws(s, j + 1);
        proof {
            assert(advance(s@.skip(j as int + 1), w4 - (j + 1) as int) =~= s@.skip(w4 as int));
        }
        match scan_members_items_fold(s, w4, acc2) {
            Some((a, j3)) => {
                proof {
                    lemma_fold_head(acc@, kk, vv, parse_members_items(suf));
                    if let Option::Some(qq) = parse_members_items(suf) {
                        if let Option::Some(qi) = parse_members_items(s@.skip(w4 as int)) {
                            assert(qq.0.drop_first() =~= qi.0);
                        }
                    }
                }
                Some((a, j3))
            },
            None => {
                proof {
                    lemma_fold_head(acc@, kk, vv, parse_members_items(suf));
                    if let Option::Some(qq) = parse_members_items(suf) {
                        if let Option::Some(qi) = parse_members_items(s@.skip(w4 as int)) {
                            assert(qq.0.drop_first() =~= qi.0);
                        }
                    }
                }
                None
            },
        }
    } else if j < s.len() && s[j] == '}' {
        proof {
            assert(s@.skip(j as int)[0] == s@[j as int]);
            lemma_fold_head(acc@, kk, vv, parse_members_items(suf));
            if let Option::Some(qq) = parse_members_items(suf) {
                assert(qq.0.drop_first() =~= Seq::<(Seq<char>, JsonVal)>::empty());
            }
        }
        Some((acc2, j + 1))
    } else {
        proof {
            if j < s.len() {
                assert(s@.skip(j as int)[0] == s@[j as int]);
            } else {
                assert(s@.skip(j as int).len() == 0);
            }
        }
        None
    }
}

/// A fold over members starts by taking the first member in.
proof fn lemma_fold_head(
    acc: FilterAcc,
    k: Seq<char>,
    v: JsonVal,
    pm: Option<(Seq<(Seq<char>, JsonVal)>, int)>,
)
    ensures
        match pm {
            Option::Some(q) => q.0.len() >= 1 && q.0[0] == (k, v) ==> fold_members(acc, q.0) == (
            match acc_add(acc, k, v) {
                Option::Some(a) => fold_members(a, q.0.drop_first()),
                Option::None => Option::None::<FilterAcc>,
            }),
            Option::None => true,
        },
{
}

/// A fresh deserialization failure naming the failing stage.
fn malformed(stage: &str) -> (r: DeserializationError)
{
    DeserializationError { message: String::from_str(stage) }
}

/// Decodes a filter from its JSON text blob: one JSON object, whitespace
/// insignificant, its fields in any order, unknown fields ignored, known
/// fields at most once each and with their own shapes. The operation is
/// all-or-nothing: a value comes back exactly when the whole text parses as a
/// filter, and a malformed text yields an error naming the failing stage,
/// never a default-substituted value.
#[verifier::rlimit(100)]
pub fn deserialize(text: &str) -> (r: Result<Filter, DeserializationError>)
    ensures
        r matches Ok(f) ==> parse_filter(text@) == Option::Some(f@),
        r is Err ==> parse_filter(text@) is None,
{
    let s = string_to_chars(text);
    proof {
        assert(s@.skip(0) =~= s@);
    }
    let w0 = skip_ws(&s, 0);
    proof {
        assert(advance(s@, w0 as int) =~= s@.skip(w0 as int));
    }
    if !(w0 < s.len() && s[w0] == '{') {
        proof {
            if w0 < s.len() {
                assert(s@.skip(w0 as int)[0] == s@[w0 as int]);
            } else {
                assert(s@.skip(w0 as int).len() == 0);
            }
        }
        return Err(malformed("expected a JSON object"));
    }
    proof {
        assert(s@.skip(w0 as int)[0] == s@[w0 as int]);
        assert(s@.skip(w0 as int).skip(1) =~= s@.skip(w0 as int + 1));
    }
    let acc0 = ScanAcc { llm: None, irm: None, rooms: None, not_rooms: None, not_types: None };
    proof {
        assert(acc0@ == empty_acc());
    }
    let (acc, j) = match scan_members_fold(&s, w0 + 1, acc0) {
        Some(p) => p,
        None => {
            return Err(malformed("malformed or repeated object member"));
        },
    };
    proof {
        assert(advance(s@.skip(w0 as int + 1), j - (w0 + 1) as int) =~= s@.skip(j as int));
    }
    let w1 = skip_ws(&s, j);
    if w1 != s.len() {
        proof {
            lemma_ws_len_bound(s@.skip(j as int));
            assert(s@.skip(j as int).len() == s@.len() - j);
        }
        return Err(malformed("text after the object"));
    }
    proof {
        assert(ws_len(s@.skip(j as int)) == s@.skip(j as int).len());
    }
    let empty_nr: Vec<String> = Vec::new();
    let empty_nt: Vec<String> = Vec::new();
    proof {
        assert(empty_nr.deep_view() =~~= Seq::<Seq<char>>::empty());
        assert(empty_nt.deep_view() =~~= Seq::<Seq<char>>::empty());
    }
    let nr = match acc.not_rooms {
        Some(xs) => xs,
        None => empty_nr,
    };
    let nt = match acc.not_types {
        Some(xs) => xs,
        None => empty_nt,
    };
    let lazy = match acc.llm {
        Some(true) => LazyLoadOptions::Enabled {
            include_redundant_members: match acc.irm {
                Some(b) => b,
                None => false,
            },
        },
        _ => LazyLoadOptions::Disabled,
    };
    let rooms = match acc.rooms {
        Some(r) => r,
        None => None,
    };
    let f = Filter { lazy_load_options: lazy, rooms, not_rooms: nr, not_types: nt };
    proof {
        assert(parse_filter(text@) matches Option::Some(v) && v =~~= f@);
    }
    Ok(f)
}

// ---------------------------------------------------------------------------
// Round trip
// ---------------------------------------------------------------------------
/// A sequence is a prefix of itself followed by anything.
proof fn lemma_prefix_of_concat(p: Seq<char>, t: Seq<char>)
    ensures
        p.is_prefix_of(p + t),
{
    assert(p =~= (p + t).subrange(0, p.len() as int));
}

/// A sequence differing at some index, or too long, is no prefix.
proof fn lemma_not_prefix(p: Seq<char>, s: Seq<char>, d: int)
    requires
        0 <= d < p.len(),
        d >= s.len() || p[d] != s[d],
    ensures
        !p.is_prefix_of(s),
{
    if p.is_prefix_of(s) {
        assert(p[d] == s.subrange(0, p.len() as int)[d]);
        assert(false);
    }
}

/// Each hexadecimal digit character reads back as its value.
proof fn lemma_hex_char_val(d: u32)
    requires
        d < 16,
    ensures
        hex_val(hex_char(d)) == Option::Some(d),
{
}

/// Parsing a string body undoes escaping, whatever follows the closing quote.
#[verifier::rlimit(100)]
proof fn lemma_parse_escape(x: Seq<char>, rest: Seq<char>)
    ensures
        parse_jstring_body(escape(x) + seq!['"'] + rest) == Option::Some(
            (x, escape(x).len() as int + 1),
        ),
    decreases x.len(),
{
    let s = escape(x) + seq!['"'] + rest;
    if x.len() == 0 {
        assert(s[0] == '"');
        assert(x =~= Seq::<char>::empty());
    } else {
        let c = x[0];
        let x2 = x.drop_first();
        lemma_parse_escape(x2, rest);
        assert(escape(x) == escape_char(c) + escape(x2));
        if c == '"' || c == '\\' {
            assert(s[0] == '\\');
            assert(s[1] == c);
            assert(s[1] != 'u');
            assert(esc_char(c) == Option::Some(c));
            assert(s.skip(2) =~= escape(x2) + seq!['"'] + rest);
            assert(seq![c] + x2 =~= x);
        } else if c == '\u{8}' || c == '\t' || c == '\n' || c == '\u{c}' || c == '\r' {
            assert(s[0] == '\\');
            assert(s[1] != 'u' && s[1] != '"' && s[1] != '\\');
            assert(esc_char(s[1]) == Option::Some(c));
            assert(s.skip(2) =~= escape(x2) + seq!['"'] + rest);
            assert(seq![c] + x2 =~= x);
        } else if code_of(c) < 0x20 {
            let n = code_of(c);
            assert(s[0] == '\\');
            assert(s[1] == 'u');
            assert(s[2] == '0' && s[3] == '0');
            assert(s[4] == hex_char(n / 16) && s[5] == hex_char(n % 16));
            lemma_hex_char_val(n / 16);
            lemma_hex_char_val(n % 16);
            assert(hex_val(s[2]) == Option::Some(0u32));
            assert(hex4_at(s, 2) == Option::Some(n)) by {
                assert(s.len() >= 6);
                assert((0 * 4096 + 0 * 256 + (n / 16) * 16 + n % 16) as u32 == n);
            }
            assert(n < 0xD800);
            lemma_control_char_of(c);
            assert(decoded_char(n) == c);
            assert(s.skip(6) =~= escape(x2) + seq!['"'] + rest);
            assert(seq![c] + x2 =~= x);
        } else {
            assert(s[0] == c);
            assert(c != '"' && c != '\\' && code_of(c) >= 0x20);
            assert(s.skip(1) =~= escape(x2) + seq!['"'] + rest);
            assert(seq![c] + x2 =~= x);
        }
    }
}

/// Parsing a JSON string literal undoes serializing one, whatever follows.
proof fn lemma_parse_json_string(x: Seq<char>, rest: Seq<char>)
    ensures
        parse_jstring(json_string(x) + rest) == Option::Some((x, json_string(x).len() as int)),
        json_string(x).len() >= 2,
{
    let s = json_string(x) + rest;
    assert(s[0] == '"');
    assert(s.skip(1) =~= escape(x) + seq!['"'] + rest);
    lemma_parse_escape(x, rest);
}

/// A serialized string parses as a string value, whatever follows.
proof fn lemma_value_string(x: Seq<char>, rest: Seq<char>)
    ensures
        parse_value(json_string(x) + rest) == Option::Some(
            (JsonVal::Str(x), json_string(x).len() as int),
        ),
{
    reveal(parse_value);
    let s = json_string(x) + rest;
    assert(s[0] == '"');
    lemma_parse_json_string(x, rest);
}

/// A serialized boolean parses as a boolean value, whatever follows.
proof fn lemma_value_bool(b: bool, rest: Seq<char>)
    ensures
        parse_value(bool_text(b) + rest) == Option::Some(
            (JsonVal::Bool(b), bool_text(b).len() as int),
        ),
{
    reveal(parse_value);
    reveal_strlit("true");
    reveal_strlit("false");
    let s = bool_text(b) + rest;
    assert(s[0] != '"' && s[0] != '[' && s[0] != '{');
    if b {
        lemma_prefix_of_concat("true"@, rest);
    } else {
        lemma_not_prefix("true"@, s, 0);
        lemma_prefix_of_concat("false"@, rest);
    }
}

/// The items of a serialized non-empty array parse back to the list.
#[verifier::rlimit(100)]
#[verifier::spinoff_prover]
proof fn lemma_array_items(xs: Seq<Seq<char>>, rest: Seq<char>)
    requires
        xs.len() >= 1,
    ensures
        parse_array_items(json_list_items(xs) + seq![']'] + rest) == Option::Some(
            (Option::Some(xs), json_list_items(xs).len() as int + 1),
        ),
    decreases xs.len(),
{
    let s = json_list_items(xs) + seq![']'] + rest;
    if xs.len() == 1 {
        assert(s =~= json_string(xs[0]) + (seq![']'] + rest));
        lemma_value_string(xs[0], seq![']'] + rest);
        let n = json_string(xs[0]).len() as int;
        assert(s.skip(n) =~= seq![']'] + rest);
        assert(ws_len(s.skip(n)) == 0);
        assert(advance(s.skip(n), 0) =~= s.skip(n));
        assert(s.skip(n)[0] == ']');
        assert(list_single(JsonVal::Str(xs[0])) == Option::Some(seq![xs[0]]));
        assert(seq![xs[0]] =~= xs);
    } else {
        let x2 = xs.drop_first();
        assert(json_list_items(xs) == json_string(xs[0]) + seq![','] + json_list_items(x2));
        let tail = seq![','] + json_list_items(x2) + seq![']'] + rest;
        assert(s =~= json_string(xs[0]) + tail);
        lemma_value_string(xs[0], tail);
        let n = json_string(xs[0]).len() as int;
        assert(s.skip(n) =~= tail);
        assert(ws_len(s.skip(n)) == 0);
        assert(advance(s.skip(n), 0) =~= s.skip(n));
        assert(s.skip(n)[0] == ',');
        assert(advance(s.skip(n), 1) =~= json_list_items(x2) + seq![']'] + rest);
        assert((json_list_items(x2) + seq![']'] + rest)[0] == '"') by {
            if x2.len() == 1 {
                assert(json_list_items(x2) == json_string(x2[0]));
            } else {
                assert(json_list_items(x2) == json_string(x2[0]) + seq![','] + json_list_items(
                    x2.drop_first(),
                ));
            }
            assert(json_string(x2[0])[0] == '"');
        }
        assert(ws_len(advance(s.skip(n), 1)) == 0);
        assert(advance(advance(s.skip(n), 1), 0) =~= advance(s.skip(n), 1));
        lemma_array_items(x2, rest);
        assert(list_cons(JsonVal::Str(xs[0]), Option::Some(x2)) == Option::Some(seq![xs[0]] + x2));
        assert(seq![xs[0]] + x2 =~= xs);
    }
}

/// A serialized array parses as a string-list value, whatever follows.
proof fn lemma_value_list(xs: Seq<Seq<char>>, rest: Seq<char>)
    ensures
        parse_value(json_list(xs) + rest) == Option::Some(
            (JsonVal::StrList(xs), json_list(xs).len() as int),
        ),
{
    reveal(parse_value);
    let s = json_list(xs) + rest;
    assert(s[0] == '[');
    assert(s.skip(1) =~= json_list_items(xs) + seq![']'] + rest);
    if xs.len() == 0 {
        assert(json_list_items(xs) =~= Seq::<char>::empty());
        assert(s.skip(1) =~= seq![']'] + rest);
        assert(ws_len(s.skip(1)) == 0);
        assert(advance(s.skip(1), 0) =~= s.skip(1));
        assert(s.skip(1)[0] == ']');
        assert(Seq::<Seq<char>>::empty() =~= xs);
    } else {
        assert((json_list_items(xs) + seq![']'] + rest)[0] == '"') by {
            if xs.len() == 1 {
                assert(json_list_items(xs) == json_string(xs[0]));
            } else {
                assert(json_list_items(xs) == json_string(xs[0]) + seq![','] + json_list_items(
                    xs.drop_first(),
                ));
            }
            assert(json_string(xs[0])[0] == '"');
        }
        assert(ws_len(s.skip(1)) == 0);
        assert(advance(s.skip(1), 0) =~= s.skip(1));
        lemma_array_items(xs, rest);
    }
}

/// One canonical object member: its key, its serialized value text, and the
/// value that text parses to.
pub ghost struct CanonMember {
    pub key: Seq<char>,
    pub text: Seq<char>,
    pub val: JsonVal,
}

/// The member as serialized: the key as a JSON string, a colon, the value.
pub open spec fn cm_text(m: CanonMember) -> Seq<char> {
    json_string(m.key) + seq![':'] + m.text
}

/// The serialized texts of the members.
pub open spec fn cm_texts(cms: Seq<CanonMember>) -> Seq<Seq<char>>
    decreases cms.len(),
{
    if cms.len() == 0 {
        Seq::empty()
    } else {
        seq![cm_text(cms[0])] + cm_texts(cms.drop_first())
    }
}

/// The key/value pairs of the members.
pub open spec fn cm_pairs(cms: Seq<CanonMember>) -> Seq<(Seq<char>, JsonVal)>
    decreases cms.len(),
{
    if cms.len() == 0 {
        Seq::empty()
    } else {
        seq![(cms[0].key, cms[0].val)] + cm_pairs(cms.drop_first())
    }
}

/// A well-formed canonical member: its value text is non-empty, does not
/// start with whitespace, and parses to its value whatever follows.
pub open spec fn cm_ok(m: CanonMember) -> bool {
    &&& m.text.len() >= 1
    &&& !is_ws(m.text[0])
    &&& forall|rest: Seq<char>|
        #[trigger] parse_value(m.text + rest) == Option::Some((m.val, m.text.len() as int))
}

/// Serialized texts distribute over splitting the member list.
proof fn lemma_cm_texts_split(a: Seq<CanonMember>, b: Seq<CanonMember>)
    ensures
        cm_texts(a + b) == cm_texts(a) + cm_texts(b),
    decreases a.len(),
{
    if a.len() == 0 {
        assert(a + b =~= b);
        assert(cm_texts(a) + cm_texts(b) =~= cm_texts(b));
    } else {
        lemma_cm_texts_split(a.drop_first(), b);
        assert((a + b).drop_first() =~= a.drop_first() + b);
        assert(seq![cm_text((a + b)[0])] + (cm_texts(a.drop_first()) + cm_texts(b)) =~= (seq![
            cm_text(a[0]),
        ] + cm_texts(a.drop_first())) + cm_texts(b));
    }
}

/// Key/value pairs distribute over splitting the member list.
proof fn lemma_cm_pairs_split(a: Seq<CanonMember>, b: Seq<CanonMember>)
    ensures
        cm_pairs(a + b) == cm_pairs(a) + cm_pairs(b),
    decreases a.len(),
{
    if a.len() == 0 {
        assert(a + b =~= b);
        assert(cm_pairs(a) + cm_pairs(b) =~= cm_pairs(b));
    } else {
        lemma_cm_pairs_split(a.drop_first(), b);
        assert((a + b).drop_first() =~= a.drop_first() + b);
        assert(seq![((a + b)[0].key, (a + b)[0].val)] + (cm_pairs(a.drop_first()) + cm_pairs(b))
            =~= (seq![(a[0].key, a[0].val)] + cm_pairs(a.drop_first())) + cm_pairs(b));
    }
}

/// One serialized canonical member, followed by anything that is not
/// whitespace, parses back to its key and value.
#[verifier::rlimit(100)]
#[verifier::spinoff_prover]
proof fn lemma_member_kv_canonical(m: CanonMember, rest: Seq<char>)
    requires
        cm_ok(m),
        rest.len() >= 1,
        !is_ws(rest[0]),
    ensures
        parse_member_kv(cm_text(m) + rest) == Option::Some(
            (m.key, m.val, cm_text(m).len() as int),
        ),
{
    reveal(parse_member_kv);
    let s = cm_text(m) + rest;
    assert(s =~= json_string(m.key) + (seq![':'] + m.text + rest));
    lemma_parse_json_string(m.key, seq![':'] + m.text + rest);
    let kn = json_string(m.key).len() as int;
    assert(2 <= kn && kn <= s.len());
    assert(s.skip(kn) =~= seq![':'] + m.text + rest);
    assert(ws_len(s.skip(kn)) == 0);
    assert(advance(s.skip(kn), 0) =~= s.skip(kn));
    assert(s.skip(kn)[0] == ':');
    assert(advance(s.skip(kn), 1) =~= m.text + rest);
    assert(!is_ws((m.text + rest)[0]));
    assert(ws_len(m.text + rest) == 0);
    assert(advance(advance(s.skip(kn), 1), 0) =~= m.text + rest);
    assert(parse_value(m.text + rest) == Option::Some((m.val, m.text.len() as int)));
    let vn = m.text.len() as int;
    assert(1 <= vn && vn <= (m.text + rest).len());
    assert(advance(m.text + rest, vn) =~= rest);
    assert(ws_len(rest) == 0);
    assert(kn + 1 + vn == cm_text(m).len());
}

/// The serialized members, commas between them and the closing brace after
/// them, parse back to their key/value pairs.
#[verifier::rlimit(100)]
#[verifier::spinoff_prover]
proof fn lemma_members_items_canonical(cms: Seq<CanonMember>)
    requires
        cms.len() >= 1,
        forall|i: int| 0 <= i < cms.len() ==> cm_ok(#[trigger] cms[i]),
    ensures
        parse_members_items(fields_rest(cm_texts(cms), true)) == Option::Some(
            (cm_pairs(cms), fields_rest(cm_texts(cms), true).len() as int),
        ),
    decreases cms.len(),
{
    reveal(parse_members_items);
    let m0 = cms[0];
    let texts = cm_texts(cms);
    let s = fields_rest(texts, true);
    assert(texts[0] == cm_text(m0));
    assert(texts.drop_first() =~= cm_texts(cms.drop_first()));
    let texts2 = cm_texts(cms.drop_first());
    let rr = fields_rest(texts2, false);
    assert(s == cm_text(m0) + rr);
    assert(cm_ok(m0));
    let n = cm_text(m0).len() as int;
    if cms.len() == 1 {
        assert(texts2.len() == 0);
        assert(rr =~= seq!['}']);
        lemma_member_kv_canonical(m0, rr);
        assert(1 <= n && n <= s.len());
        assert(s.skip(n) =~= rr);
        assert(rr[0] == '}');
        assert(cm_pairs(cms) =~= seq![(m0.key, m0.val)]);
        assert(s.len() == n + 1);
    } else {
        assert(texts2.len() >= 1);
        assert(rr == seq![','] + texts2[0] + fields_rest(texts2.drop_first(), false));
        let s5 = fields_rest(texts2, true);
        assert(s5 == texts2[0] + fields_rest(texts2.drop_first(), false));
        assert(rr =~= seq![','] + s5);
        assert(rr[0] == ',');
        lemma_member_kv_canonical(m0, rr);
        assert(1 <= n && n <= s.len());
        assert(s.skip(n) =~= rr);
        assert(advance(s.skip(n), 1) =~= s5);
        assert(texts2[0] == cm_text(cms.drop_first()[0]));
        assert(s5[0] == '"') by {
            assert(json_string(cms.drop_first()[0].key)[0] == '"');
        }
        assert(ws_len(s5) == 0);
        assert(advance(advance(s.skip(n), 1), 0) =~= s5);
        assert(forall|i: int|
            0 <= i < cms.drop_first().len() ==> cm_ok(#[trigger] cms.drop_first()[i]));
        lemma_members_items_canonical(cms.drop_first());
        assert(seq![(m0.key, m0.val)] + cm_pairs(cms.drop_first()) =~= cm_pairs(cms));
        assert(s.len() == n + 1 + s5.len());
    }
}

/// Folding members distributes over splitting the list.
proof fn lemma_fold_split(acc: FilterAcc, a: Seq<(Seq<char>, JsonVal)>, b: Seq<(Seq<char>, JsonVal)>)
    ensures
        fold_members(acc, a + b) == (match fold_members(acc, a) {
            Option::Some(m) => fold_members(m, b),
            Option::None => Option::None,
        }),
    decreases a.len(),
{
    if a.len() == 0 {
        assert(a + b =~= b);
    } else {
        assert((a + b)[0] == a[0]);
        assert((a + b).drop_first() =~= a.drop_first() + b);
        match acc_add(acc, a[0].0, a[0].1) {
            Option::Some(m) => {
                lemma_fold_split(m, a.drop_first(), b);
            },
            Option::None => {},
        }
    }
}

/// Escaping leaves a text without quotes, backslashes or control characters
/// unchanged.
proof fn lemma_escape_plain(x: Seq<char>)
    requires
        forall|i: int|
            0 <= i < x.len() ==> (#[trigger] x[i]) != '"' && x[i] != '\\' && code_of(x[i]) >= 0x20,
    ensures
        escape(x) == x,
    decreases x.len(),
{
    if x.len() > 0 {
        assert(forall|i: int|
            0 <= i < x.drop_first().len() ==> (#[trigger] x.drop_first()[i]) != '"'
                && x.drop_first()[i] != '\\' && code_of(x.drop_first()[i]) >= 0x20) by {
            assert(forall|i: int|
                0 <= i < x.drop_first().len() ==> #[trigger] x.drop_first()[i] == x[i + 1]);
        }
        lemma_escape_plain(x.drop_first());
        assert(escape_char(x[0]) =~= seq![x[0]]);
        assert(seq![x[0]] + x.drop_first() =~= x);
    }
}

/// The canonical members of the lazy-load field group.
pub open spec fn lazy_cms(f: FilterView) -> Seq<CanonMember> {
    match f.lazy_load_options {
        LazyLoadOptions::Disabled => Seq::empty(),
        LazyLoadOptions::Enabled { include_redundant_members } => seq![
            CanonMember {
                key: "lazy_load_members"@,
                text: "true"@,
                val: JsonVal::Bool(true),
            },
            CanonMember {
                key: "include_redundant_members"@,
                text: bool_text(include_redundant_members),
                val: JsonVal::Bool(include_redundant_members),
            },
        ],
    }
}

/// The canonical member of the room restriction field.
pub open spec fn rooms_cms(f: FilterView) -> Seq<CanonMember> {
    match f.rooms {
        Option::Some(xs) => seq![
            CanonMember { key: "rooms"@, text: json_list(xs), val: JsonVal::StrList(xs) },
        ],
        Option::None => Seq::empty(),
    }
}

/// The canonical member of the excluded-rooms field.
pub open spec fn not_rooms_cms(f: FilterView) -> Seq<CanonMember> {
    if f.not_rooms.len() == 0 {
        Seq::empty()
    } else {
        seq![
            CanonMember {
                key: "not_rooms"@,
                text: json_list(f.not_rooms),
                val: JsonVal::StrList(f.not_rooms),
            },
        ]
    }
}

/// The canonical member of the excluded-types field.
pub open spec fn not_types_cms(f: FilterView) -> Seq<CanonMember> {
    if f.not_types.len() == 0 {
        Seq::empty()
    } else {
        seq![
            CanonMember {
                key: "not_types"@,
                text: json_list(f.not_types),
                val: JsonVal::StrList(f.not_types),
            },
        ]
    }
}

/// The canonical members a filter serializes to, in declared order.
pub open spec fn cms_of(f: FilterView) -> Seq<CanonMember> {
    lazy_cms(f) + rooms_cms(f) + not_rooms_cms(f) + not_types_cms(f)
}

/// Every canonical member of a filter is well formed.
proof fn lemma_cms_ok(f: FilterView)
    ensures
        forall|i: int| 0 <= i < cms_of(f).len() ==> cm_ok(#[trigger] cms_of(f)[i]),
{
    reveal_strlit("true");
    reveal_strlit("false");
    assert forall|i: int| 0 <= i < cms_of(f).len() implies cm_ok(#[trigger] cms_of(f)[i]) by {
        let m = cms_of(f)[i];
        assert(lazy_cms(f).len() <= 2 && rooms_cms(f).len() <= 1 && not_rooms_cms(f).len() <= 1
            && not_types_cms(f).len() <= 1);
        if i < lazy_cms(f).len() {
            assert(m == lazy_cms(f)[i]);
            let b = (if i == 0 {
                true
            } else {
                f.lazy_load_options->Enabled_include_redundant_members
            });
            assert(m.text == bool_text(b) && m.val == JsonVal::Bool(b));
            assert(m.text.len() >= 1 && !is_ws(m.text[0]));
            assert forall|rest: Seq<char>|
                #[trigger] parse_value(m.text + rest) == Option::Some(
                    (m.val, m.text.len() as int),
                ) by {
                lemma_value_bool(b, rest);
            }
        } else {
            let xs = (if i < lazy_cms(f).len() + rooms_cms(f).len() {
                f.rooms->Some_0
            } else if i < lazy_cms(f).len() + rooms_cms(f).len() + not_rooms_cms(f).len() {
                f.not_rooms
            } else {
                f.not_types
            });
            assert(m.text == json_list(xs) && m.val == JsonVal::StrList(xs));
            assert(m.text[0] == '[');
            assert(m.text.len() >= 1 && !is_ws(m.text[0]));
            assert forall|rest: Seq<char>|
                #[trigger] parse_value(m.text + rest) == Option::Some(
                    (m.val, m.text.len() as int),
                ) by {
                lemma_value_list(xs, rest);
            }
        }
    }
}

/// A key text without special characters: its JSON string form, a colon
/// after it, equals the plain quoted key text.
proof fn lemma_key_text(k: Seq<char>, lit: Seq<char>)
    requires
        forall|i: int|
            0 <= i < k.len() ==> (#[trigger] k[i]) != '"' && k[i] != '\\' && code_of(k[i]) >= 0x20,
        lit =~= seq!['"'] + k + seq!['"', ':'],
    ensures
        forall|t: Seq<char>| #[trigger] (json_string(k) + seq![':'] + t) == lit + t,
{
    lemma_escape_plain(k);
    assert forall|t: Seq<char>| #[trigger] (json_string(k) + seq![':'] + t) == lit + t by {
        assert(json_string(k) + seq![':'] + t =~= lit + t);
    }
}

/// A first field holding two members fused by a comma joins like the two
/// members themselves.
proof fn lemma_fused_field(a: Seq<char>, b: Seq<char>, tail: Seq<Seq<char>>, first: bool)
    ensures
        fields_rest(seq![a + seq![','] + b] + tail, first) == fields_rest(
            seq![a, b] + tail,
            first,
        ),
{
    let l = seq![a + seq![','] + b] + tail;
    let r = seq![a, b] + tail;
    assert(l.drop_first() =~= tail);
    assert(r.drop_first() =~= seq![b] + tail);
    assert(r.drop_first().drop_first() =~= tail);
    assert(r.drop_first()[0] == b);
    assert(fields_rest(seq![b] + tail, false) == seq![','] + (seq![b] + tail)[0] + fields_rest(
        (seq![b] + tail).drop_first(),
        false,
    ));
    assert((seq![b] + tail)[0] == b);
    assert(fields_rest(r.drop_first(), false) == fields_rest(seq![b] + tail, false));
    if first {
        assert(fields_rest(l, true) == (a + seq![','] + b) + fields_rest(tail, false));
        assert(fields_rest(r, true) == a + fields_rest(seq![b] + tail, false));
        assert((a + seq![','] + b) + fields_rest(tail, false) =~= a + (seq![','] + b
            + fields_rest(tail, false)));
    } else {
        assert(fields_rest(l, false) == seq![','] + (a + seq![','] + b) + fields_rest(
            tail,
            false,
        ));
        assert(fields_rest(r, false) == seq![','] + a + fields_rest(seq![b] + tail, false));
        assert(seq![','] + (a + seq![','] + b) + fields_rest(tail, false) =~= seq![','] + a + (
        seq![','] + b + fields_rest(tail, false)));
    }
}

/// The serialized filter text joins exactly the canonical member texts.
#[verifier::rlimit(100)]
proof fn lemma_ser_is_members(f: FilterView)
    ensures
        fields_rest(filter_fields(f), true) == fields_rest(cm_texts(cms_of(f)), true),
{
    reveal_with_fuel(cm_texts, 4);
    reveal_strlit("lazy_load_members");
    reveal_strlit("include_redundant_members");
    reveal_strlit("rooms");
    reveal_strlit("not_rooms");
    reveal_strlit("not_types");
    reveal_strlit("\"lazy_load_members\":true,\"include_redundant_members\":");
    reveal_strlit("\"rooms\":");
    reveal_strlit("\"not_rooms\":");
    reveal_strlit("\"not_types\":");
    reveal_strlit("true");
    lemma_cm_texts_split(lazy_cms(f), rooms_cms(f) + not_rooms_cms(f) + not_types_cms(f));
    lemma_cm_texts_split(rooms_cms(f) + not_rooms_cms(f), not_types_cms(f));
    lemma_cm_texts_split(rooms_cms(f), not_rooms_cms(f));
    assert(cms_of(f) =~= lazy_cms(f) + (rooms_cms(f) + not_rooms_cms(f) + not_types_cms(f)));
    lemma_key_text("rooms"@, "\"rooms\":"@);
    lemma_key_text("not_rooms"@, "\"not_rooms\":"@);
    lemma_key_text("not_types"@, "\"not_types\":"@);
    // rooms, not_rooms, not_types parts coincide member for member
    assert(rooms_part(f) =~= cm_texts(rooms_cms(f))) by {
        match f.rooms {
            Option::Some(xs) => {
                assert(rooms_cms(f).drop_first() =~= Seq::<CanonMember>::empty());
                assert(cm_texts(rooms_cms(f)) =~= seq![cm_text(rooms_cms(f)[0])]);
                assert(cm_text(rooms_cms(f)[0]) == json_string("rooms"@) + seq![':'] + json_list(
                    xs,
                ));
                assert(json_string("rooms"@) + seq![':'] + json_list(xs) == "\"rooms\":"@
                    + json_list(xs));
            },
            Option::None => {
                assert(cm_texts(rooms_cms(f)) =~= Seq::<Seq<char>>::empty());
            },
        }
    }
    assert(not_rooms_part(f) =~= cm_texts(not_rooms_cms(f))) by {
        if f.not_rooms.len() > 0 {
            assert(not_rooms_cms(f).drop_first() =~= Seq::<CanonMember>::empty());
            assert(cm_texts(not_rooms_cms(f)) =~= seq![cm_text(not_rooms_cms(f)[0])]);
            assert(cm_text(not_rooms_cms(f)[0]) == json_string("not_rooms"@) + seq![':']
                + json_list(f.not_rooms));
            assert(json_string("not_rooms"@) + seq![':'] + json_list(f.not_rooms)
                == "\"not_rooms\":"@ + json_list(f.not_rooms));
        } else {
            assert(cm_texts(not_rooms_cms(f)) =~= Seq::<Seq<char>>::empty());
        }
    }
    assert(not_types_part(f) =~= cm_texts(not_types_cms(f))) by {
        if f.not_types.len() > 0 {
            assert(not_types_cms(f).drop_first() =~= Seq::<CanonMember>::empty());
            assert(cm_texts(not_types_cms(f)) =~= seq![cm_text(not_types_cms(f)[0])]);
            assert(cm_text(not_types_cms(f)[0]) == json_string("not_types"@) + seq![':']
                + json_list(f.not_types));
            assert(json_string("not_types"@) + seq![':'] + json_list(f.not_types)
                == "\"not_types\":"@ + json_list(f.not_types));
        } else {
            assert(cm_texts(not_types_cms(f)) =~= Seq::<Seq<char>>::empty());
        }
    }
    let tail = rooms_part(f) + not_rooms_part(f) + not_types_part(f);
    assert(cm_texts(rooms_cms(f) + not_rooms_cms(f) + not_types_cms(f)) =~= tail);
    match f.lazy_load_options {
        LazyLoadOptions::Disabled => {
            assert(filter_fields(f) =~= tail);
            assert(cm_texts(cms_of(f)) =~= tail);
        },
        LazyLoadOptions::Enabled { include_redundant_members: b } => {
            let t1 = cm_text(lazy_cms(f)[0]);
            let t2 = cm_text(lazy_cms(f)[1]);
            assert(cm_texts(lazy_cms(f)) =~= seq![t1, t2]) by {
                assert(lazy_cms(f).drop_first() =~= seq![lazy_cms(f)[1]]);
                assert(lazy_cms(f).drop_first().drop_first()
                    =~= Seq::<CanonMember>::empty());
            }
            assert(cm_texts(cms_of(f)) =~= seq![t1, t2] + tail);
            assert(filter_fields(f) =~= seq![lazy_key() + bool_text(b)] + tail);
            reveal_strlit("\"lazy_load_members\":");
            reveal_strlit("\"include_redundant_members\":");
            lemma_key_text("lazy_load_members"@, "\"lazy_load_members\":"@);
            lemma_key_text("include_redundant_members"@, "\"include_redundant_members\":"@);
            assert(t1 == "\"lazy_load_members\":"@ + "true"@);
            assert(t2 == "\"include_redundant_members\":"@ + bool_text(b));
            assert(lazy_key() + bool_text(b) =~= t1 + seq![','] + t2);
            lemma_fused_field(t1, t2, tail, true);
            assert(fields_rest(seq![lazy_key() + bool_text(b)] + tail, true) == fields_rest(
                seq![t1, t2] + tail,
                true,
            )) by {
                assert(seq![lazy_key() + bool_text(b)] + tail =~= seq![t1 + seq![','] + t2]
                    + tail);
            }
        },
    }
}

/// Folding the canonical members of a filter rebuilds that filter.
#[verifier::rlimit(100)]
proof fn lemma_fold_canonical(f: FilterView)
    ensures
        (match fold_members(empty_acc(), cm_pairs(cms_of(f))) {
            Option::Some(acc) => finish_acc(acc) == f,
            Option::None => false,
        }),
{
    reveal(acc_add);
    reveal_with_fuel(cm_pairs, 4);
    reveal_with_fuel(fold_members, 4);
    reveal_strlit("lazy_load_members");
    reveal_strlit("include_redundant_members");
    reveal_strlit("rooms");
    reveal_strlit("not_rooms");
    reveal_strlit("not_types");
    lemma_cm_pairs_split(lazy_cms(f), rooms_cms(f) + not_rooms_cms(f) + not_types_cms(f));
    lemma_cm_pairs_split(rooms_cms(f) + not_rooms_cms(f), not_types_cms(f));
    lemma_cm_pairs_split(rooms_cms(f), not_rooms_cms(f));
    assert(cms_of(f) =~= lazy_cms(f) + (rooms_cms(f) + not_rooms_cms(f) + not_types_cms(f)));
    let p1 = cm_pairs(lazy_cms(f));
    let p2 = cm_pairs(rooms_cms(f));
    let p3 = cm_pairs(not_rooms_cms(f));
    let p4 = cm_pairs(not_types_cms(f));
    assert(cm_pairs(cms_of(f)) == p1 + (p2 + p3 + p4));
    lemma_fold_split(empty_acc(), p1, p2 + p3 + p4);
    let a1 = (match f.lazy_load_options {
        LazyLoadOptions::Disabled => empty_acc(),
        LazyLoadOptions::Enabled { include_redundant_members: b } => FilterAcc {
            llm: Option::Some(true),
            irm: Option::Some(b),
            ..empty_acc()
        },
    });
    assert(fold_members(empty_acc(), p1) == Option::Some(a1)) by {
        match f.lazy_load_options {
            LazyLoadOptions::Disabled => {
                assert(p1 =~= Seq::<(Seq<char>, JsonVal)>::empty());
            },
            LazyLoadOptions::Enabled { include_redundant_members: b } => {
                assert(lazy_cms(f).drop_first() =~= seq![lazy_cms(f)[1]]);
                assert(lazy_cms(f).drop_first().drop_first() =~= Seq::<CanonMember>::empty());
                assert(p1 =~= seq![
                    ("lazy_load_members"@, JsonVal::Bool(true)),
                    ("include_redundant_members"@, JsonVal::Bool(b)),
                ]);
                assert(p1.drop_first() =~= seq![("include_redundant_members"@, JsonVal::Bool(b))]);
                assert(p1.drop_first().drop_first() =~= Seq::<(Seq<char>, JsonVal)>::empty());
                assert("include_redundant_members"@ != "lazy_load_members"@) by {
                    assert("include_redundant_members"@.len() == 25);
                    assert("lazy_load_members"@.len() == 17);
                }
            },
        }
    }
    assert(fold_members(a1, p2 + p3 + p4) == (match fold_members(a1, p2 + p3) {
        Option::Some(m) => fold_members(m, p4),
        Option::None => Option::None,
    })) by {
        lemma_fold_split(a1, p2 + p3, p4);
    }
    lemma_fold_split(a1, p2, p3);
    let a2 = (match f.rooms {
        Option::Some(xs) => FilterAcc { rooms: Option::Some(Option::Some(xs)), ..a1 },
        Option::None => a1,
    });
    assert(fold_members(a1, p2) == Option::Some(a2)) by {
        match f.rooms {
            Option::Some(xs) => {
                assert(rooms_cms(f).drop_first() =~= Seq::<CanonMember>::empty());
                assert(p2 =~= seq![("rooms"@, JsonVal::StrList(xs))]);
                assert(p2.drop_first() =~= Seq::<(Seq<char>, JsonVal)>::empty());
                assert("rooms"@ != "lazy_load_members"@ && "rooms"@
                    != "include_redundant_members"@) by {
                    assert("rooms"@.len() == 5);
                    assert("lazy_load_members"@.len() == 17);
                    assert("include_redundant_members"@.len() == 25);
                }
            },
            Option::None => {
                assert(p2 =~= Seq::<(Seq<char>, JsonVal)>::empty());
            },
        }
    }
    lemma_fold_split(a2, p3, p4);
    let a3 = (if f.not_rooms.len() == 0 {
        a2
    } else {
        FilterAcc { not_rooms: Option::Some(f.not_rooms), ..a2 }
    });
    assert(fold_members(a2, p3) == Option::Some(a3)) by {
        if f.not_rooms.len() > 0 {
            assert(not_rooms_cms(f).drop_first() =~= Seq::<CanonMember>::empty());
            assert(p3 =~= seq![("not_rooms"@, JsonVal::StrList(f.not_rooms))]);
            assert(p3.drop_first() =~= Seq::<(Seq<char>, JsonVal)>::empty());
            assert("not_rooms"@ != "lazy_load_members"@ && "not_rooms"@
                != "include_redundant_members"@ && "not_rooms"@ != "rooms"@) by {
                assert("not_rooms"@.len() == 9);
                assert("lazy_load_members"@.len() == 17);
                assert("include_redundant_members"@.len() == 25);
                assert("rooms"@.len() == 5);
            }
        } else {
            assert(p3 =~= Seq::<(Seq<char>, JsonVal)>::empty());
        }
    }
    let a4 = (if f.not_types.len() == 0 {
        a3
    } else {
        FilterAcc { not_types: Option::Some(f.not_types), ..a3 }
    });
    assert(fold_members(a3, p4) == Option::Some(a4)) by {
        if f.not_types.len() > 0 {
            assert(not_types_cms(f).drop_first() =~= Seq::<CanonMember>::empty());
            assert(p4 =~= seq![("not_types"@, JsonVal::StrList(f.not_types))]);
            assert(p4.drop_first() =~= Seq::<(Seq<char>, JsonVal)>::empty());
            assert("not_types"@ != "lazy_load_members"@ && "not_types"@
                != "include_redundant_members"@ && "not_types"@ != "rooms"@ && "not_types"@
                != "not_rooms"@) by {
                assert("not_types"@.len() == 9);
                assert("lazy_load_members"@.len() == 17);
                assert("include_redundant_members"@.len() == 25);
                assert("rooms"@.len() == 5);
                assert("not_types"@[4] == 't' && "not_rooms"@[4] == 'r');
            }
        } else {
            assert(p4 =~= Seq::<(Seq<char>, JsonVal)>::empty());
        }
    }
    assert(finish_acc(a4) =~~= f);
}

/// Round trip: parsing the serialized form of any filter yields that filter,
/// structurally unchanged — absence and default-valued presence included.
#[verifier::rlimit(100)]
#[verifier::spinoff_prover]
pub proof fn lemma_filter_round_trip(f: FilterView)
    ensures
        parse_filter(ser_filter(f)) == Option::Some(f),
{
    let s = ser_filter(f);
    assert(s[0] == '{');
    assert(!is_ws(s[0]));
    assert(ws_len(s) == 0);
    assert(advance(s, 0) =~= s);
    lemma_ser_is_members(f);
    let body = fields_rest(cm_texts(cms_of(f)), true);
    assert(s.skip(1) =~= body);
    if cms_of(f).len() == 0 {
        assert(cm_texts(cms_of(f)).len() == 0);
        assert(body == seq!['}']);
        assert(ws_len(body) == 0);
        assert(advance(body, 0) =~= body);
        assert(body[0] == '}');
        assert(parse_members(body) == Option::Some(
            (Seq::<(Seq<char>, JsonVal)>::empty(), 1int),
        ));
        assert(advance(body, 1) =~= Seq::<char>::empty());
        assert(ws_len(Seq::<char>::empty()) == 0);
        assert(fold_members(empty_acc(), Seq::empty()) == Option::Some(empty_acc()));
        assert(lazy_cms(f).len() == 0 && rooms_cms(f).len() == 0 && not_rooms_cms(f).len() == 0
            && not_types_cms(f).len() == 0);
        assert(finish_acc(empty_acc()) =~~= f);
    } else {
        let texts = cm_texts(cms_of(f));
        assert(texts.len() >= 1) by {
            assert(cm_texts(cms_of(f)).len() == cms_of(f).len()) by {
                lemma_cm_texts_len(cms_of(f));
            }
        }
        assert(body == texts[0] + fields_rest(texts.drop_first(), false));
        assert(texts[0] == cm_text(cms_of(f)[0]));
        assert(body[0] == '"') by {
            assert(json_string(cms_of(f)[0].key)[0] == '"');
        }
        assert(ws_len(body) == 0);
        assert(advance(body, 0) =~= body);
        lemma_cms_ok(f);
        lemma_members_items_canonical(cms_of(f));
        assert(parse_members(body) == Option::Some((cm_pairs(cms_of(f)), body.len() as int)));
        assert(advance(body, body.len() as int) =~= Seq::<char>::empty());
        assert(ws_len(Seq::<char>::empty()) == 0);
        lemma_fold_canonical(f);
    }
}

/// A member list has as many texts as members.
proof fn lemma_cm_texts_len(cms: Seq<CanonMember>)
    ensures
        cm_texts(cms).len() == cms.len(),
    decreases cms.len(),
{
    if cms.len() > 0 {
        lemma_cm_texts_len(cms.drop_first());
    }
}

} // verus!
