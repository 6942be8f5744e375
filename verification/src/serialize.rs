//! Canonical state encoding: text states keep their raw bytes, STRUCT states become a typed,
//! name-ordered document whose bytes are the complete comparison content of a judgment.

use vstd::prelude::*;
use vstd::string::*;
use vstd::utf8::encode_utf8;

use crate::json::{get_member, Json, JsonNumber, JsonView};
use crate::text::{
    decimal, digit_char, lemma_signed_decimal_injective, lemma_signed_decimal_reads_back,
    push_decimal, push_signed_decimal, push_str, signed_decimal, signed_text_value,
};

verus! {

/// Version of the canonical encoding; it is part of every judgment identity.
pub const CANONICAL_VERSION: u32 = 1;

/// Where a state came from.
#[derive(Debug, Clone, Copy, PartialEq, Eq, Hash, Structural)]
pub enum StateKind {
    /// VARCHAR state: the raw text, without any wrapping.
    Text,
    /// STRUCT state: typed, name-ordered encoding.
    Struct,
}

/// A typed state value.
///
/// Floating-point values are held as their IEEE-754 binary64 bit pattern together with the
/// shortest round-trip text that the host rendered for them; the encoder copies that text.
#[derive(Debug, PartialEq)]
pub enum TypedValue {
    Null,
    Bool(bool),
    Int(i64),
    UInt(u64),
    /// Bit pattern and shortest round-trip rendering of a binary64 value.
    Float(u64, String),
    /// DECIMAL: exact decimal text.
    Decimal(String),
    /// HUGEINT: exact decimal text.
    BigInt(String),
    /// UHUGEINT: exact decimal text.
    UBigInt(String),
    Text(String),
    Struct(StructFields),
}

/// STRUCT fields ordered by name (byte order of the UTF-8 names), each name at most once.
#[derive(Debug, PartialEq)]
pub struct StructFields {
    entries: Vec<(String, TypedValue)>,
}

/// Code point order on texts; for valid UTF-8 it coincides with the byte order of `String`.
pub open spec fn text_lt(a: Seq<char>, b: Seq<char>) -> bool
    decreases a.len(),
{
    if a.len() == 0 {
        b.len() > 0
    } else if b.len() == 0 {
        false
    } else if a[0] != b[0] {
        (a[0] as int) < (b[0] as int)
    } else {
        text_lt(a.drop_first(), b.drop_first())
    }
}

pub proof fn lemma_text_lt_irreflexive(a: Seq<char>)
    ensures
        !text_lt(a, a),
    decreases a.len(),
{
    if a.len() > 0 {
        lemma_text_lt_irreflexive(a.drop_first());
    }
}

pub proof fn lemma_text_lt_transitive(a: Seq<char>, b: Seq<char>, c: Seq<char>)
    requires
        text_lt(a, b),
        text_lt(b, c),
    ensures
        text_lt(a, c),
    decreases a.len(),
{
    if a.len() > 0 && b.len() > 0 && c.len() > 0 {
        if a[0] == b[0] && b[0] == c[0] {
            lemma_text_lt_transitive(a.drop_first(), b.drop_first(), c.drop_first());
        }
    }
}

pub proof fn lemma_text_lt_total(a: Seq<char>, b: Seq<char>)
    ensures
        a == b || text_lt(a, b) || text_lt(b, a),
    decreases a.len(),
{
    if a.len() > 0 && b.len() > 0 && a[0] == b[0] {
        lemma_text_lt_total(a.drop_first(), b.drop_first());
        if a.drop_first() == b.drop_first() {
            assert(a =~= seq![a[0]] + a.drop_first());
            assert(b =~= seq![b[0]] + b.drop_first());
        }
    } else if a.len() == 0 && b.len() == 0 {
        assert(a =~= b);
    } else if a.len() > 0 && b.len() > 0 {
        assert((a[0] as int) != (b[0] as int));
    }
}

pub proof fn lemma_text_lt_asymmetric(a: Seq<char>, b: Seq<char>)
    requires
        text_lt(a, b),
    ensures
        !text_lt(b, a),
{
    if text_lt(b, a) {
        lemma_text_lt_transitive(a, b, a);
        lemma_text_lt_irreflexive(a);
    }
}

/// Whether `a` sorts strictly before `b` (code point order).
pub fn text_less(a: &str, b: &str) -> (r: bool)
    ensures
        r == text_lt(a@, b@),
{
    let na = a.unicode_len();
    let nb = b.unicode_len();
    let mut i: usize = 0;
    assert(a@.skip(0) =~= a@);
    assert(b@.skip(0) =~= b@);
    while i < na && i < nb
        invariant
            na == a@.len(),
            nb == b@.len(),
            i <= na,
            i <= nb,
            text_lt(a@, b@) == text_lt(a@.skip(i as int), b@.skip(i as int)),
        decreases na - i,
    {
        let ca = a.get_char(i);
        let cb = b.get_char(i);
        assert(a@.skip(i as int)[0] == ca);
        assert(b@.skip(i as int)[0] == cb);
        if ca != cb {
            return (ca as u32) < (cb as u32);
        }
        assert(a@.skip(i as int).drop_first() =~= a@.skip(i + 1));
        assert(b@.skip(i as int).drop_first() =~= b@.skip(i + 1));
        i = i + 1;
    }
    i == na && i < nb
}

impl StructFields {
    /// Names strictly increasing, hence unique.
    pub open spec fn sorted_names(entries: Seq<(String, TypedValue)>) -> bool {
        forall|i: int, j: int|
            0 <= i < j < entries.len() ==> text_lt(#[trigger] entries[i].0@, #[trigger] entries[j].0@)
    }

    #[verifier::type_invariant]
    spec fn fields_ordered(self) -> bool {
        Self::sorted_names(self.entries@)
    }

    /// The fields in name order.
    pub closed spec fn entries_view(self) -> Seq<(String, TypedValue)> {
        self.entries@
    }

    /// No fields.
    pub fn new() -> (r: Self)
        ensures
            r.entries_view().len() == 0,
    {
        StructFields { entries: Vec::new() }
    }

    pub fn len(&self) -> (r: usize)
        ensures
            r == self.entries_view().len(),
    {
        self.entries.len()
    }

    /// The field at position `i` in name order.
    pub fn entry(&self, i: usize) -> (r: &(String, TypedValue))
        requires
            i < self.entries_view().len(),
        ensures
            *r == self.entries_view()[i as int],
    {
        &self.entries[i]
    }

    /// Sets the value of field `name`, replacing an earlier value of the same name; the
    /// other fields and the name order are kept.
    pub fn insert(&mut self, name: String, value: TypedValue)
        ensures
            Self::sorted_names(final(self).entries_view()),
            exists|k: int|
                0 <= k < final(self).entries_view().len() && final(self).entries_view()[k]
                    == (name, value),
            forall|i: int|
                0 <= i < old(self).entries_view().len() && old(self).entries_view()[i].0@
                    != name@ ==> final(self).entries_view().contains(
                    #[trigger] old(self).entries_view()[i],
                ),
            forall|i: int|
                #![trigger final(self).entries_view()[i]]
                0 <= i < final(self).entries_view().len() ==> final(self).entries_view()[i] == (
                name,
                value,
                ) || (final(self).entries_view()[i].0@ != name@ && old(self).entries_view().contains(final(self).entries_view()[i])),
    {
        proof {
            use_type_invariant(&*self);
        }
        let n = self.entries.len();
        let mut pos: usize = 0;
        while pos < n && text_less(self.entries[pos].0.as_str(), name.as_str())
            invariant
                n == self.entries@.len(),
                pos <= n,
                Self::sorted_names(self.entries@),
                forall|j: int| 0 <= j < pos ==> text_lt(#[trigger] self.entries@[j].0@, name@),
            decreases n - pos,
        {
            pos = pos + 1;
        }
        let ghost before = self.entries@;
        if pos < n && self.entries[pos].0 == name {
            proof {
                assert forall|i: int, j: int|
                    0 <= i < j < before.len() implies text_lt(
                    #[trigger] before.update(pos as int, (name, value))[i].0@,
                    #[trigger] before.update(pos as int, (name, value))[j].0@,
                ) by {
                    assert(text_lt(before[i].0@, before[j].0@));
                }
                assert forall|i: int|
                    0 <= i < before.len() && before[i].0@ != name@ implies before.update(
                    pos as int,
                    (name, value),
                ).contains(#[trigger] before[i]) by {
                    assert(i != pos);
                    assert(before.update(pos as int, (name, value))[i] == before[i]);
                }
                assert forall|i: int|
                    0 <= i < before.len() && i != pos implies (#[trigger] before.update(
                    pos as int,
                    (name, value),
                )[i]).0@ != name@ && before.contains(before.update(pos as int, (name, value))[i]) by {
                    if i < pos {
                        assert(text_lt(before[i].0@, name@));
                        lemma_text_lt_irreflexive(name@);
                    } else {
                        assert(text_lt(before[pos as int].0@, before[i].0@));
                        lemma_text_lt_irreflexive(name@);
                    }
                    assert(before.update(pos as int, (name, value))[i] == before[i]);
                }
            }
            let mut entries: Vec<(String, TypedValue)> = Vec::new();
            std::mem::swap(&mut entries, &mut self.entries);
            entries.set(pos, (name, value));
            self.entries = entries;
            assert(self.entries_view()[pos as int] == (name, value));
        } else {
            proof {
                if pos < n {
                    lemma_text_lt_total(before[pos as int].0@, name@);
                }
                let after = before.insert(pos as int, (name, value));
                assert forall|i: int, j: int|
                    0 <= i < j < after.len() implies text_lt(
                    #[trigger] after[i].0@,
                    #[trigger] after[j].0@,
                ) by {
                    if j < pos {
                        assert(text_lt(before[i].0@, before[j].0@));
                    } else if j == pos {
                        assert(text_lt(before[i].0@, name@));
                    } else if i < pos {
                        assert(text_lt(before[i].0@, name@));
                        assert(text_lt(name@, before[pos as int].0@));
                        if j - 1 > pos {
                            assert(text_lt(before[pos as int].0@, before[j - 1].0@));
                            lemma_text_lt_transitive(name@, before[pos as int].0@, before[j - 1].0@);
                        }
                        lemma_text_lt_transitive(before[i].0@, name@, before[j - 1].0@);
                    } else if i == pos {
                        assert(text_lt(name@, before[pos as int].0@));
                        if j - 1 > pos {
                            assert(text_lt(before[pos as int].0@, before[j - 1].0@));
                            lemma_text_lt_transitive(name@, before[pos as int].0@, before[j - 1].0@);
                        }
                    } else {
                        assert(text_lt(before[i - 1].0@, before[j - 1].0@));
                    }
                }
                assert forall|i: int|
                    0 <= i < before.len() && before[i].0@ != name@ implies after.contains(
                    #[trigger] before[i],
                ) by {
                    if i < pos {
                        assert(after[i] == before[i]);
                    } else {
                        assert(after[i + 1] == before[i]);
                    }
                }
                assert forall|i: int|
                    0 <= i < after.len() && i != pos implies (#[trigger] after[i]).0@ != name@
                        && before.contains(after[i]) by {
                    if i < pos {
                        assert(after[i] == before[i]);
                        assert(text_lt(before[i].0@, name@));
                        lemma_text_lt_irreflexive(name@);
                    } else {
                        assert(after[i] == before[i - 1]);
                        if i - 1 > pos {
                            assert(text_lt(before[pos as int].0@, before[i - 1].0@));
                            lemma_text_lt_transitive(name@, before[pos as int].0@, before[i - 1].0@);
                        }
                        lemma_text_lt_irreflexive(name@);
                    }
                }
            }
            let mut entries: Vec<(String, TypedValue)> = Vec::new();
            std::mem::swap(&mut entries, &mut self.entries);
            entries.insert(pos, (name, value));
            self.entries = entries;
            assert(self.entries_view()[pos as int] == (name, value));
        }
    }

    /// Builds the fields from name/value pairs; a later pair replaces an earlier one with the
    /// same name, as collecting into an ordered map does.
    pub fn from_pairs(pairs: Vec<(String, TypedValue)>) -> (r: Self)
        ensures
            forall|i: int|
                0 <= i < pairs@.len() && (forall|j: int|
                    i < j < pairs@.len() ==> #[trigger] pairs@[j].0@ != pairs@[i].0@)
                    ==> r.entries_view().contains(#[trigger] pairs@[i]),
            forall|k: int|
                0 <= k < r.entries_view().len() ==> pairs@.contains(
                    #[trigger] r.entries_view()[k],
                ),
    {
        let mut fields = StructFields::new();
        let mut rest = pairs;
        let ghost all = pairs@;
        let mut reversed: Vec<(String, TypedValue)> = Vec::new();
        // Pop from the back, then pop again, so that the pairs are inserted front to back
        // and a later pair replaces an earlier one.
        while rest.len() > 0
            invariant
                reversed@.len() + rest@.len() == all.len(),
                rest@ == all.subrange(0, rest@.len() as int),
                forall|k: int|
                    0 <= k < reversed@.len() ==> #[trigger] reversed@[k] == all[all.len() - 1 - k],
            decreases rest@.len(),
        {
            let p = rest.pop().unwrap();
            reversed.push(p);
        }
        let n = reversed.len();
        while reversed.len() > 0
            invariant
                n == all.len(),
                reversed@.len() <= n,
                forall|q: int|
                    0 <= q < reversed@.len() ==> #[trigger] reversed@[q] == all[all.len() - 1 - q],
                forall|i: int|
                    0 <= i < n - reversed@.len() && (forall|j: int|
                        i < j < n - reversed@.len() ==> #[trigger] all[j].0@ != all[i].0@)
                        ==> fields.entries_view().contains(#[trigger] all[i]),
                forall|q: int|
                    0 <= q < fields.entries_view().len() ==> all.subrange(
                        0,
                        n - reversed@.len(),
                    ).contains(#[trigger] fields.entries_view()[q]),
            decreases reversed@.len(),
        {
            let ghost done: int = n - reversed@.len();
            let ghost old_fields = fields.entries_view();
            let (name, value) = reversed.pop().unwrap();
            assert(all[done] == (name, value));
            fields.insert(name, value);
            proof {
                assert forall|i: int|
                    0 <= i < done + 1 && (forall|j: int|
                        i < j < done + 1 ==> #[trigger] all[j].0@ != all[i].0@) implies fields.entries_view().contains(
                    #[trigger] all[i],
                ) by {
                    if i == done {
                        let w = choose|w: int|
                            0 <= w < fields.entries_view().len() && fields.entries_view()[w] == (
                            name,
                            value,
                        );
                        assert(fields.entries_view()[w] == all[i]);
                    } else {
                        assert(all[done].0@ != all[i].0@);
                        assert(old_fields.contains(all[i]));
                        let w = choose|w: int|
                            0 <= w < old_fields.len() && old_fields[w] == all[i];
                        assert(old_fields[w].0@ != name@);
                    }
                }
                assert forall|q: int|
                    0 <= q < fields.entries_view().len() implies all.subrange(0, done + 1).contains(
                    #[trigger] fields.entries_view()[q],
                ) by {
                    if fields.entries_view()[q] == (name, value) {
                        assert(all.subrange(0, done + 1)[done] == all[done]);
                    } else {
                        let w = choose|w: int|
                            0 <= w < old_fields.len() && old_fields[w]
                                == fields.entries_view()[q];
                        assert(all.subrange(0, done).contains(old_fields[w]));
                        let z = choose|z: int|
                            0 <= z < done && all.subrange(0, done)[z] == old_fields[w];
                        assert(all.subrange(0, done + 1)[z] == old_fields[w]);
                    }
                }
            }
        }
        assert(all.subrange(0, n as int) =~= all);
        fields
    }
}

/// Mathematical content of a typed value: texts as character sequences, fields in order.
pub enum ValueModel {
    Null,
    Bool(bool),
    Int(i64),
    UInt(u64),
    Float(u64, Seq<char>),
    Decimal(Seq<char>),
    BigInt(Seq<char>),
    UBigInt(Seq<char>),
    Text(Seq<char>),
    Struct(Seq<(Seq<char>, ValueModel)>),
}

/// The content of `v`.
pub closed spec fn value_model(v: TypedValue) -> ValueModel
    decreases v, 1nat, 0nat,
{
    match v {
        TypedValue::Null => ValueModel::Null,
        TypedValue::Bool(b) => ValueModel::Bool(b),
        TypedValue::Int(i) => ValueModel::Int(i),
        TypedValue::UInt(u) => ValueModel::UInt(u),
        TypedValue::Float(bits, text) => ValueModel::Float(bits, text@),
        TypedValue::Decimal(d) => ValueModel::Decimal(d@),
        TypedValue::BigInt(d) => ValueModel::BigInt(d@),
        TypedValue::UBigInt(d) => ValueModel::UBigInt(d@),
        TypedValue::Text(s) => ValueModel::Text(s@),
        TypedValue::Struct(f) => ValueModel::Struct(fields_model(v, f.entries@.len())),
    }
}

/// The content of the first `k` fields of the STRUCT value `v`.
pub closed spec fn fields_model(v: TypedValue, k: nat) -> Seq<(Seq<char>, ValueModel)>
    decreases v, 0nat, k,
{
    match v {
        TypedValue::Struct(f) => {
            if k == 0 || k > f.entries@.len() {
                seq![]
            } else {
                proof {
                    vstd::std_specs::vec::axiom_vec_index_decreases(f.entries, k - 1);
                }
                fields_model(v, (k - 1) as nat).push(
                    (f.entries@[k - 1].0@, value_model(f.entries@[k - 1].1)),
                )
            }
        },
        _ => seq![],
    }
}

/// Whether a binary64 bit pattern encodes a finite number (its exponent field is not all ones).
pub open spec fn finite_bits(bits: u64) -> bool {
    (bits as int / 0x10_0000_0000_0000) % 2048 != 2047
}

/// Lower-case hexadecimal digit.
pub open spec fn hex_digit(d: int) -> char {
    if d < 10 {
        digit_char(d as nat)
    } else if d == 10 {
        'a'
    } else if d == 11 {
        'b'
    } else if d == 12 {
        'c'
    } else if d == 13 {
        'd'
    } else if d == 14 {
        'e'
    } else {
        'f'
    }
}

/// JSON escape of one character: quote, backslash and the C0 controls are escaped, short
/// forms where JSON has them and `\u00XX` otherwise; every other character stays as it is.
pub open spec fn json_escape_char(c: char) -> Seq<char> {
    let u = c as int;
    if c == '"' {
        seq!['\\', '"']
    } else if c == '\\' {
        seq!['\\', '\\']
    } else if u == 0x08 {
        seq!['\\', 'b']
    } else if u == 0x09 {
        seq!['\\', 't']
    } else if u == 0x0A {
        seq!['\\', 'n']
    } else if u == 0x0C {
        seq!['\\', 'f']
    } else if u == 0x0D {
        seq!['\\', 'r']
    } else if u < 0x20 {
        seq!['\\', 'u', '0', '0', hex_digit(u / 16), hex_digit(u % 16)]
    } else {
        seq![c]
    }
}

pub open spec fn json_escaped(s: Seq<char>) -> Seq<char>
    decreases s.len(),
{
    if s.len() == 0 {
        seq![]
    } else {
        json_escaped(s.drop_last()) + json_escape_char(s.last())
    }
}

/// A JSON string literal holding `s`.
pub open spec fn json_string(s: Seq<char>) -> Seq<char> {
    seq!['"'] + json_escaped(s) + seq!['"']
}

/// `serde_json::to_string` of a string slice. The serializer writes the characters between
/// double quotes, escaping quote, backslash and the control characters below U+0020
/// (`\b \t \n \f \r` where JSON has a short form, `\u00xx` with lower-case hex otherwise);
/// serializing a `str` into a vector cannot fail.
#[verifier::external_body]
fn json_string_literal(s: &str) -> (r: String)
    ensures
        r@ == json_string(s@),
{
    serde_json::to_string(s).unwrap_or_default()
}

/// Canonical text of a typed value.
pub open spec fn model_text(m: ValueModel) -> Seq<char>
    decreases m,
{
    match m {
        ValueModel::Null => "{\"t\":\"null\"}"@,
        ValueModel::Bool(b) => "{\"t\":\"bool\",\"v\":"@ + (if b {
            "true"@
        } else {
            "false"@
        }) + "}"@,
        ValueModel::Int(i) => "{\"t\":\"int\",\"v\":\""@ + signed_decimal(i as int) + "\"}"@,
        ValueModel::UInt(u) => "{\"t\":\"uint\",\"v\":\""@ + decimal(u as nat) + "\"}"@,
        ValueModel::Float(_bits, text) => "{\"t\":\"float\",\"v\":"@ + text + "}"@,
        ValueModel::Decimal(d) => "{\"t\":\"decimal\",\"v\":"@ + json_string(d) + "}"@,
        ValueModel::BigInt(d) => "{\"t\":\"int128\",\"v\":\""@ + d + "\"}"@,
        ValueModel::UBigInt(d) => "{\"t\":\"uint128\",\"v\":\""@ + d + "\"}"@,
        ValueModel::Text(t) => "{\"t\":\"text\",\"v\":"@ + json_string(t) + "}"@,
        ValueModel::Struct(fs) => "{\"t\":\"struct\",\"f\":{"@ + fields_text(fs) + "}}"@,
    }
}

/// `"name":value` members joined by commas, in field order.
pub open spec fn fields_text(fs: Seq<(Seq<char>, ValueModel)>) -> Seq<char>
    decreases fs,
{
    if fs.len() == 0 {
        seq![]
    } else if fs.len() == 1 {
        json_string(fs[0].0) + ":"@ + model_text(fs[0].1)
    } else {
        fields_text(fs.drop_last()) + ","@ + json_string(fs.last().0) + ":"@ + model_text(
            fs.last().1,
        )
    }
}

/// Every floating-point leaf of the value is finite.
pub open spec fn model_finite(m: ValueModel) -> bool
    decreases m,
{
    match m {
        ValueModel::Float(bits, _) => finite_bits(bits),
        ValueModel::Struct(fs) => fields_finite(fs),
        _ => true,
    }
}

pub open spec fn fields_finite(fs: Seq<(Seq<char>, ValueModel)>) -> bool
    decreases fs,
{
    if fs.len() == 0 {
        true
    } else {
        fields_finite(fs.drop_last()) && model_finite(fs.last().1)
    }
}

/// The canonical document of a STRUCT state.
pub open spec fn struct_document(m: ValueModel) -> Seq<char> {
    "{\"canonical_version\":"@ + decimal(CANONICAL_VERSION as nat) + ",\"state\":"@ + model_text(
        m,
    ) + "}"@
}

proof fn lemma_fields_model_step(v: TypedValue, k: nat)
    requires
        v is Struct,
        k < v->Struct_0.entries@.len(),
    ensures
        fields_model(v, k + 1) == fields_model(v, k).push(
            (v->Struct_0.entries@[k as int].0@, value_model(v->Struct_0.entries@[k as int].1)),
        ),
{
}

proof fn lemma_fields_text_push(fs: Seq<(Seq<char>, ValueModel)>, e: (Seq<char>, ValueModel))
    ensures
        fields_text(fs.push(e)) == (if fs.len() == 0 {
            seq![]
        } else {
            fields_text(fs) + ","@
        }) + json_string(e.0) + ":"@ + model_text(e.1),
{
    assert(fs.push(e).drop_last() =~= fs);
    if fs.len() == 0 {
        assert(fs.push(e)[0] == e);
    }
}

proof fn lemma_fields_finite_push(fs: Seq<(Seq<char>, ValueModel)>, e: (Seq<char>, ValueModel))
    ensures
        fields_finite(fs.push(e)) == (fields_finite(fs) && model_finite(e.1)),
{
    assert(fs.push(e).drop_last() =~= fs);
}

fn push_json_string(buf: &mut String, s: &str)
    ensures
        final(buf)@ == old(buf)@ + json_string(s@),
{
    let quoted = json_string_literal(s);
    push_str(buf, quoted.as_str());
}

fn write_value(buf: &mut String, v: &TypedValue)
    ensures
        final(buf)@ == old(buf)@ + model_text(value_model(*v)),
    decreases v,
{
    match v {
        TypedValue::Null => push_str(buf, "{\"t\":\"null\"}"),
        TypedValue::Bool(b) => {
            push_str(buf, "{\"t\":\"bool\",\"v\":");
            if *b {
                push_str(buf, "true");
            } else {
                push_str(buf, "false");
            }
            push_str(buf, "}");
        },
        TypedValue::Int(i) => {
            push_str(buf, "{\"t\":\"int\",\"v\":\"");
            push_signed_decimal(buf, *i);
            push_str(buf, "\"}");
        },
        TypedValue::UInt(u) => {
            push_str(buf, "{\"t\":\"uint\",\"v\":\"");
            push_decimal(buf, *u as u128);
            push_str(buf, "\"}");
        },
        TypedValue::Float(_bits, text) => {
            push_str(buf, "{\"t\":\"float\",\"v\":");
            push_str(buf, text.as_str());
            push_str(buf, "}");
        },
        TypedValue::Decimal(d) => {
            push_str(buf, "{\"t\":\"decimal\",\"v\":");
            push_json_string(buf, d.as_str());
            push_str(buf, "}");
        },
        TypedValue::BigInt(d) => {
            push_str(buf, "{\"t\":\"int128\",\"v\":\"");
            push_str(buf, d.as_str());
            push_str(buf, "\"}");
        },
        TypedValue::UBigInt(d) => {
            push_str(buf, "{\"t\":\"uint128\",\"v\":\"");
            push_str(buf, d.as_str());
            push_str(buf, "\"}");
        },
        TypedValue::Text(t) => {
            push_str(buf, "{\"t\":\"text\",\"v\":");
            push_json_string(buf, t.as_str());
            push_str(buf, "}");
        },
        TypedValue::Struct(fields) => {
            let ghost start = buf@;
            push_str(buf, "{\"t\":\"struct\",\"f\":{");
            let ghost opened = buf@;
            let n = fields.entries.len();
            let mut i: usize = 0;
            while i < n
                invariant
                    n == fields.entries@.len(),
                    i <= n,
                    *v == TypedValue::Struct(*fields),
                    buf@ == opened + fields_text(fields_model(*v, i as nat)),
                decreases n - i,
            {
                let entry = &fields.entries[i];
                proof {
                    vstd::std_specs::vec::axiom_vec_index_decreases(fields.entries, i as int);
                    lemma_fields_model_step(*v, i as nat);
                    lemma_fields_text_push(
                        fields_model(*v, i as nat),
                        (entry.0@, value_model(entry.1)),
                    );
                }
                let ghost before = buf@;
                if i > 0 {
                    push_str(buf, ",");
                }
                push_json_string(buf, entry.0.as_str());
                push_str(buf, ":");
                write_value(buf, &entry.1);
                assert(buf@ =~= opened + fields_text(fields_model(*v, (i + 1) as nat)));
                i = i + 1;
            }
            push_str(buf, "}}");
            assert(buf@ =~= start + model_text(value_model(*v)));
        },
    }
}

proof fn lemma_sorted_unique_equal(a: Seq<(String, TypedValue)>, b: Seq<(String, TypedValue)>)
    requires
        StructFields::sorted_names(a),
        StructFields::sorted_names(b),
        forall|x: (String, TypedValue)| a.contains(x) <==> b.contains(x),
    ensures
        a == b,
    decreases a.len() + b.len(),
{
    if a.len() == 0 {
        if b.len() > 0 {
            assert(b.contains(b[0]));
        }
        assert(a =~= b);
    } else if b.len() == 0 {
        assert(a.contains(a[0]));
    } else {
        assert(a.contains(a[0]));
        let k = choose|k: int| 0 <= k < b.len() && b[k] == a[0];
        assert(b.contains(b[0]));
        let m = choose|m: int| 0 <= m < a.len() && a[m] == b[0];
        if k > 0 {
            assert(text_lt(b[0].0@, b[k].0@));
            if m > 0 {
                assert(text_lt(a[0].0@, a[m].0@));
                lemma_text_lt_asymmetric(a[0].0@, b[0].0@);
            } else {
                lemma_text_lt_irreflexive(a[0].0@);
            }
        }
        assert(a[0] == b[0]);
        let a1 = a.drop_first();
        let b1 = b.drop_first();
        assert forall|x: (String, TypedValue)| a1.contains(x) <==> b1.contains(x) by {
            if a1.contains(x) {
                let i = choose|i: int| 0 <= i < a1.len() && a1[i] == x;
                assert(a[i + 1] == x);
                assert(a.contains(x));
                let j = choose|j: int| 0 <= j < b.len() && b[j] == x;
                if j == 0 {
                    assert(text_lt(a[0].0@, a[i + 1].0@));
                    lemma_text_lt_irreflexive(a[0].0@);
                }
                assert(b1[j - 1] == x);
            }
            if b1.contains(x) {
                let i = choose|i: int| 0 <= i < b1.len() && b1[i] == x;
                assert(b[i + 1] == x);
                assert(b.contains(x));
                let j = choose|j: int| 0 <= j < a.len() && a[j] == x;
                if j == 0 {
                    assert(text_lt(b[0].0@, b[i + 1].0@));
                    lemma_text_lt_irreflexive(b[0].0@);
                }
                assert(a1[j - 1] == x);
            }
        }
        assert forall|i: int, j: int| 0 <= i < j < a1.len() implies text_lt(
            #[trigger] a1[i].0@,
            #[trigger] a1[j].0@,
        ) by {
            assert(text_lt(a[i + 1].0@, a[j + 1].0@));
        }
        assert forall|i: int, j: int| 0 <= i < j < b1.len() implies text_lt(
            #[trigger] b1[i].0@,
            #[trigger] b1[j].0@,
        ) by {
            assert(text_lt(b[i + 1].0@, b[j + 1].0@));
        }
        lemma_sorted_unique_equal(a1, b1);
        assert(a =~= seq![a[0]] + a1);
        assert(b =~= seq![b[0]] + b1);
    }
}

/// STRUCT field order is normalized: two field collections holding the same fields, however
/// they were assembled, are the same value, so they encode to the same canonical state.
pub proof fn law_field_order_is_normalized(f1: StructFields, f2: StructFields)
    requires
        StructFields::sorted_names(f1.entries_view()),
        StructFields::sorted_names(f2.entries_view()),
        forall|x: (String, TypedValue)|
            f1.entries_view().contains(x) <==> f2.entries_view().contains(x),
    ensures
        f1.entries_view() == f2.entries_view(),
        value_model(TypedValue::Struct(f1)) == value_model(TypedValue::Struct(f2)),
{
    lemma_sorted_unique_equal(f1.entries_view(), f2.entries_view());
    lemma_fields_model_same(TypedValue::Struct(f1), TypedValue::Struct(f2), f1.entries@.len());
}

/// The canonical text of a signed integer keeps its value: two integers share a canonical
/// text only when they are equal (so `-3` and `3` are different states).
pub proof fn law_int_text_keeps_sign(a: i64, b: i64)
    requires
        model_text(ValueModel::Int(a)) == model_text(ValueModel::Int(b)),
    ensures
        a == b,
{
    let p = "{\"t\":\"int\",\"v\":\""@;
    let q = "\"}"@;
    let ta = signed_decimal(a as int);
    let tb = signed_decimal(b as int);
    assert(model_text(ValueModel::Int(a)) == p + ta + q);
    assert(model_text(ValueModel::Int(b)) == p + tb + q);
    assert(ta.len() == tb.len());
    assert(ta =~= (p + ta + q).subrange(p.len() as int, (p.len() + ta.len()) as int));
    assert(tb =~= (p + tb + q).subrange(p.len() as int, (p.len() + tb.len()) as int));
    lemma_signed_decimal_injective(a as int, b as int);
}

/// The request-document node of an integer carries the integer itself: its `v` member is a
/// text that reads back as exactly that (signed) value.
pub proof fn law_int_node_reads_back(i: i64)
    ensures
        value_model(TypedValue::Int(i)) == ValueModel::Int(i),
        get_member(value_json(ValueModel::Int(i)), "t"@) == Some(JsonView::Str("int"@)),
        exists|t: Seq<char>|
            get_member(value_json(ValueModel::Int(i)), "v"@) == Some(JsonView::Str(t))
                && #[trigger] signed_text_value(t) == i,
{
    let t = signed_decimal(i as int);
    lemma_signed_decimal_reads_back(i as int);
    reveal_strlit("t");
    reveal_strlit("v");
    let members = seq![("t"@, JsonView::Str("int"@)), ("v"@, JsonView::Str(t))];
    let first = seq![("t"@, JsonView::Str("int"@))];
    assert(members.drop_last() =~= first);
    assert(members.last().0 == "v"@);
    assert("v"@[0] != "t"@[0]);
    assert("v"@ != "t"@);
    assert(crate::json::member_value(first, "t"@) == Some(JsonView::Str("int"@)));
    assert(crate::json::member_value(members, "t"@) == crate::json::member_value(first, "t"@));
    assert(get_member(value_json(ValueModel::Int(i)), "v"@) == Some(JsonView::Str(t)));
    assert(signed_text_value(t) == i);
}

/// The canonical text of an unsigned integer keeps its value.
pub proof fn law_uint_text_keeps_value(a: u64, b: u64)
    requires
        model_text(ValueModel::UInt(a)) == model_text(ValueModel::UInt(b)),
    ensures
        a == b,
{
    let p = "{\"t\":\"uint\",\"v\":\""@;
    let q = "\"}"@;
    let ta = decimal(a as nat);
    let tb = decimal(b as nat);
    assert(model_text(ValueModel::UInt(a)) == p + ta + q);
    assert(model_text(ValueModel::UInt(b)) == p + tb + q);
    assert(ta.len() == tb.len());
    assert(ta =~= (p + ta + q).subrange(p.len() as int, (p.len() + ta.len()) as int));
    assert(tb =~= (p + tb + q).subrange(p.len() as int, (p.len() + tb.len()) as int));
    crate::text::lemma_decimal_reads_back(a as nat);
    crate::text::lemma_decimal_reads_back(b as nat);
}

/// The request-document node of an unsigned integer carries the integer itself.
pub proof fn law_uint_node_reads_back(u: u64)
    ensures
        value_model(TypedValue::UInt(u)) == ValueModel::UInt(u),
        exists|t: Seq<char>|
            get_member(value_json(ValueModel::UInt(u)), "v"@) == Some(JsonView::Str(t))
                && #[trigger] crate::text::digits_value(t) == u,
{
    let t = decimal(u as nat);
    crate::text::lemma_decimal_reads_back(u as nat);
    let members = seq![("t"@, JsonView::Str("uint"@)), ("v"@, JsonView::Str(t))];
    assert(members.last().0 == "v"@);
    assert(get_member(value_json(ValueModel::UInt(u)), "v"@) == Some(JsonView::Str(t)));
}

/// The text of one `"name":value` member.
#[verifier::opaque]
spec fn member_text(e: (Seq<char>, ValueModel)) -> Seq<char> {
    json_string(e.0) + ":"@ + model_text(e.1)
}

/// One step of the member list's text: the last member after the others and a comma.
proof fn lemma_fields_text_step(u: Seq<(Seq<char>, ValueModel)>)
    requires
        u.len() > 0,
    ensures
        u.len() == 1 ==> fields_text(u) == member_text(u[0]),
        u.len() > 1 ==> fields_text(u) == fields_text(u.drop_last()) + ","@ + member_text(
            u.last(),
        ),
{
    reveal(member_text);
    if u.len() > 1 {
        assert(fields_text(u) =~= fields_text(u.drop_last()) + ","@ + member_text(u.last()));
    }
}

/// The member list's text around member `k`: whatever member stands at `k`, the text is the
/// same prefix, that member's text, and the same suffix.
#[verifier::spinoff_prover]
#[verifier::rlimit(60)]
proof fn lemma_fields_text_around(
    fs: Seq<(Seq<char>, ValueModel)>,
    k: int,
    e1: (Seq<char>, ValueModel),
    e2: (Seq<char>, ValueModel),
) -> (r: (Seq<char>, Seq<char>))
    requires
        0 <= k < fs.len(),
    ensures
        fields_text(fs.update(k, e1)) == r.0 + member_text(e1) + r.1,
        fields_text(fs.update(k, e2)) == r.0 + member_text(e2) + r.1,
    decreases fs.len(),
{
    let n = fs.len();
    let u1 = fs.update(k, e1);
    let u2 = fs.update(k, e2);
    let init = fs.drop_last();
    lemma_fields_text_step(u1);
    lemma_fields_text_step(u2);
    let m1 = member_text(e1);
    let m2 = member_text(e2);
    if k == n - 1 {
        if n == 1 {
            assert(u1[0] == e1);
            assert(u2[0] == e2);
            assert(m1 =~= Seq::<char>::empty() + m1 + Seq::<char>::empty());
            assert(m2 =~= Seq::<char>::empty() + m2 + Seq::<char>::empty());
            (Seq::empty(), Seq::empty())
        } else {
            assert(u1.drop_last() =~= init);
            assert(u2.drop_last() =~= init);
            assert(u1.last() == e1);
            assert(u2.last() == e2);
            let a = fields_text(init) + ","@;
            assert(a + m1 =~= a + m1 + Seq::<char>::empty());
            assert(a + m2 =~= a + m2 + Seq::<char>::empty());
            (a, Seq::empty())
        }
    } else {
        assert(u1.drop_last() =~= init.update(k, e1));
        assert(u2.drop_last() =~= init.update(k, e2));
        assert(u1.last() == fs.last());
        assert(u2.last() == fs.last());
        let (a, b) = lemma_fields_text_around(init, k, e1, e2);
        let tail = ","@ + member_text(fs.last());
        assert((a + m1 + b) + ","@ + member_text(fs.last()) =~= a + m1 + (b + tail));
        assert((a + m2 + b) + ","@ + member_text(fs.last()) =~= a + m2 + (b + tail));
        (a, b + tail)
    }
}

/// `x + m1 + y == x + m2 + y` only when `m1 == m2`.
proof fn lemma_cancel_around(x: Seq<char>, m1: Seq<char>, m2: Seq<char>, y: Seq<char>)
    requires
        x + m1 + y == x + m2 + y,
    ensures
        m1 == m2,
{
    assert((x + m1 + y).len() == x.len() + m1.len() + y.len());
    assert((x + m2 + y).len() == x.len() + m2.len() + y.len());
    assert(m1 =~= (x + m1 + y).subrange(x.len() as int, (x.len() + m1.len()) as int));
    assert(m2 =~= (x + m2 + y).subrange(x.len() as int, (x.len() + m2.len()) as int));
}

/// Changing one integer field of a STRUCT changes its canonical bytes: rows whose states differ
/// only in the value (or the sign) of one integer field never share a judgment.
pub proof fn law_int_field_changes_encoding(
    f1: StructFields,
    f2: StructFields,
    k: int,
    a: i64,
    b: i64,
)
    requires
        f1.entries_view().len() == f2.entries_view().len(),
        0 <= k < f1.entries_view().len(),
        forall|j: int|
            0 <= j < f1.entries_view().len() && j != k ==> #[trigger] f1.entries_view()[j]
                == f2.entries_view()[j],
        f1.entries_view()[k].0@ == f2.entries_view()[k].0@,
        f1.entries_view()[k].1 == TypedValue::Int(a),
        f2.entries_view()[k].1 == TypedValue::Int(b),
        a != b,
    ensures
        encode_utf8(struct_document(value_model(TypedValue::Struct(f1)))) != encode_utf8(
            struct_document(value_model(TypedValue::Struct(f2))),
        ),
{
    let v1 = TypedValue::Struct(f1);
    let v2 = TypedValue::Struct(f2);
    let n = f1.entries@.len();
    lemma_fields_model_index(v1, n);
    lemma_fields_model_index(v2, n);
    let m1 = fields_model(v1, n);
    let m2 = fields_model(v2, n);
    let name = f1.entries@[k].0@;
    let e1 = (name, ValueModel::Int(a));
    let e2 = (name, ValueModel::Int(b));
    assert(m1 =~= m1.update(k, e1));
    assert(m2 =~= m1.update(k, e2)) by {
        assert forall|j: int| 0 <= j < n implies #[trigger] m2[j] == m1.update(k, e2)[j] by {
            if j != k {
                assert(f1.entries_view()[j] == f2.entries_view()[j]);
            }
        }
    }
    let (pre, post) = lemma_fields_text_around(m1, k, e1, e2);
    let x = "{\"canonical_version\":"@ + decimal(CANONICAL_VERSION as nat) + ",\"state\":"@
        + "{\"t\":\"struct\",\"f\":{"@ + pre;
    let y = post + "}}"@ + "}"@;
    let d1 = struct_document(value_model(v1));
    let d2 = struct_document(value_model(v2));
    reveal(member_text);
    assert(d1 =~= x + member_text(e1) + y);
    assert(d2 =~= x + member_text(e2) + y);
    if encode_utf8(d1) == encode_utf8(d2) {
        vstd::utf8::encode_utf8_decode_utf8(d1);
        vstd::utf8::encode_utf8_decode_utf8(d2);
        lemma_cancel_around(x, member_text(e1), member_text(e2), y);
        let jp = json_string(name) + ":"@;
        lemma_cancel_around(
            jp,
            model_text(ValueModel::Int(a)),
            model_text(ValueModel::Int(b)),
            Seq::empty(),
        );
        law_int_text_keeps_sign(a, b);
    }
}

/// A SQL NULL field is not a missing field: adding a NULL-valued field to a STRUCT, at any
/// position, changes its canonical encoding.
pub proof fn law_null_field_differs_from_missing(f1: StructFields, f2: StructFields, i: int)
    requires
        0 <= i <= f1.entries_view().len(),
        f2.entries_view().len() == f1.entries_view().len() + 1,
        f2.entries_view()[i].1 is Null,
        forall|j: int| 0 <= j < i ==> #[trigger] f2.entries_view()[j] == f1.entries_view()[j],
        forall|j: int|
            i <= j < f1.entries_view().len() ==> #[trigger] f2.entries_view()[j + 1]
                == f1.entries_view()[j],
    ensures
        encode_utf8(struct_document(value_model(TypedValue::Struct(f1)))) != encode_utf8(
            struct_document(value_model(TypedValue::Struct(f2))),
        ),
{
    let v1 = TypedValue::Struct(f1);
    let v2 = TypedValue::Struct(f2);
    let n = f1.entries@.len();
    lemma_fields_model_index(v1, n);
    lemma_fields_model_index(v2, n + 1);
    let fs1 = fields_model(v1, n);
    let fs2 = fields_model(v2, n + 1);
    let e = (f2.entries@[i].0@, ValueModel::Null);
    assert(fs2 =~= fs1.insert(i, e)) by {
        assert forall|j: int| 0 <= j < fs2.len() implies #[trigger] fs2[j] == fs1.insert(i, e)[j] by {
            if j > i {
                assert(f2.entries_view()[(j - 1) + 1] == f1.entries_view()[j - 1]);
            }
        }
    }
    lemma_fields_text_insert_longer(fs1, i, e);
    let d1 = struct_document(value_model(v1));
    let d2 = struct_document(value_model(v2));
    assert(d1.len() < d2.len());
    vstd::utf8::encode_utf8_decode_utf8(d1);
    vstd::utf8::encode_utf8_decode_utf8(d2);
}

/// The first `k` field contents of a STRUCT, one per field.
proof fn lemma_fields_model_index(v: TypedValue, k: nat)
    requires
        v is Struct,
        k <= v->Struct_0.entries@.len(),
    ensures
        fields_model(v, k).len() == k,
        forall|j: int|
            0 <= j < k ==> #[trigger] fields_model(v, k)[j] == (
                v->Struct_0.entries@[j].0@,
                value_model(v->Struct_0.entries@[j].1),
            ),
    decreases k,
{
    if k > 0 {
        lemma_fields_model_index(v, (k - 1) as nat);
        lemma_fields_model_step(v, (k - 1) as nat);
    }
}

/// Inserting a member anywhere lengthens the member list's text.
proof fn lemma_fields_text_insert_longer(
    fs: Seq<(Seq<char>, ValueModel)>,
    i: int,
    e: (Seq<char>, ValueModel),
)
    requires
        0 <= i <= fs.len(),
    ensures
        fields_text(fs).len() < fields_text(fs.insert(i, e)).len(),
    decreases fs.len(),
{
    let ins = fs.insert(i, e);
    reveal_strlit(",");
    reveal_strlit(":");
    if i == fs.len() {
        assert(ins =~= fs.push(e));
        lemma_fields_text_push(fs, e);
    } else if fs.len() == 1 {
        assert(ins.drop_last() =~= seq![e]);
        assert(ins.last() == fs[0]);
        assert(seq![e][0] == e);
    } else {
        let rest = fs.drop_last();
        assert(ins.drop_last() =~= rest.insert(i, e));
        assert(ins.last() == fs.last());
        lemma_fields_text_insert_longer(rest, i, e);
    }
}

proof fn lemma_fields_model_same(v1: TypedValue, v2: TypedValue, k: nat)
    requires
        v1 is Struct,
        v2 is Struct,
        v1->Struct_0.entries@ == v2->Struct_0.entries@,
    ensures
        fields_model(v1, k) == fields_model(v2, k),
    decreases k,
{
    if k > 0 {
        lemma_fields_model_same(v1, v2, (k - 1) as nat);
    }
}

/// A text value's content is its text; no other value's content is a text.
pub proof fn lemma_text_model(v: TypedValue)
    ensures
        v matches TypedValue::Text(t) ==> value_model(v) == ValueModel::Text(t@),
        !(v is Text) ==> !(value_model(v) is Text),
{
}

/// The request-body form of a typed value: a node object tagged with its type.
pub open spec fn value_json(m: ValueModel) -> JsonView
    decreases m,
{
    match m {
        ValueModel::Null => JsonView::Object(seq![("t"@, JsonView::Str("null"@))]),
        ValueModel::Bool(b) => JsonView::Object(
            seq![("t"@, JsonView::Str("bool"@)), ("v"@, JsonView::Bool(b))],
        ),
        ValueModel::Int(i) => JsonView::Object(
            seq![("t"@, JsonView::Str("int"@)), ("v"@, JsonView::Str(signed_decimal(i as int)))],
        ),
        ValueModel::UInt(u) => JsonView::Object(
            seq![("t"@, JsonView::Str("uint"@)), ("v"@, JsonView::Str(decimal(u as nat)))],
        ),
        ValueModel::Float(bits, _) => JsonView::Object(
            seq![
                ("t"@, JsonView::Str("float"@)),
                ("v"@, JsonView::Number(JsonNumber { bits, unsigned: None })),
            ],
        ),
        ValueModel::Decimal(d) => JsonView::Object(
            seq![("t"@, JsonView::Str("decimal"@)), ("v"@, JsonView::Str(d))],
        ),
        ValueModel::BigInt(d) => JsonView::Object(
            seq![("t"@, JsonView::Str("int128"@)), ("v"@, JsonView::Str(d))],
        ),
        ValueModel::UBigInt(d) => JsonView::Object(
            seq![("t"@, JsonView::Str("uint128"@)), ("v"@, JsonView::Str(d))],
        ),
        ValueModel::Text(t) => JsonView::Object(
            seq![("t"@, JsonView::Str("text"@)), ("v"@, JsonView::Str(t))],
        ),
        ValueModel::Struct(fs) => JsonView::Object(
            seq![("f"@, JsonView::Object(fields_json(fs))), ("t"@, JsonView::Str("struct"@))],
        ),
    }
}

pub open spec fn fields_json(fs: Seq<(Seq<char>, ValueModel)>) -> Seq<(Seq<char>, JsonView)>
    decreases fs,
{
    if fs.len() == 0 {
        seq![]
    } else {
        fields_json(fs.drop_last()).push((fs.last().0, value_json(fs.last().1)))
    }
}

fn tagged(tag: &str, value: Option<Json>) -> (r: Json)
    ensures
        r@ == match value {
            Some(v) => JsonView::Object(seq![("t"@, JsonView::Str(tag@)), ("v"@, v@)]),
            None => JsonView::Object(seq![("t"@, JsonView::Str(tag@))]),
        },
{
    let ghost vv = value;
    let mut members: Vec<(String, Json)> = Vec::new();
    members.push((String::from_str("t"), crate::json::text(tag)));
    if let Some(v) = value {
        members.push((String::from_str("v"), v));
    }
    let r = crate::json::object(members);
    proof {
        reveal_strlit("t");
        reveal_strlit("v");
        match vv {
            Some(v) => assert(members@.map_values(|m: (String, Json)| (m.0@, m.1@)) =~= seq![
                ("t"@, JsonView::Str(tag@)),
                ("v"@, v@),
            ]),
            None => assert(members@.map_values(|m: (String, Json)| (m.0@, m.1@)) =~= seq![
                ("t"@, JsonView::Str(tag@)),
            ]),
        }
    }
    r
}

/// The request-body form of a typed value: a node object tagged with its type, integers as
/// exact decimal text, floats as numbers, STRUCT fields in name order.
pub fn to_json_value(v: &TypedValue) -> (r: Json)
    ensures
        r@ == value_json(value_model(*v)),
        v matches TypedValue::Int(i) ==> exists|t: Seq<char>|
            get_member(r@, "v"@) == Some(JsonView::Str(t)) && #[trigger] signed_text_value(t) == i,
    decreases v,
{
    proof {
        if let TypedValue::Int(i) = v {
            law_int_node_reads_back(*i);
        }
    }
    match v {
        TypedValue::Null => tagged("null", None),
        TypedValue::Bool(b) => tagged("bool", Some(Json::Bool(*b))),
        TypedValue::Int(i) => {
            let mut t = String::new();
            push_signed_decimal(&mut t, *i);
            assert(t@ =~= signed_decimal(*i as int));
            tagged("int", Some(Json::Str(t)))
        },
        TypedValue::UInt(u) => {
            let mut t = String::new();
            push_decimal(&mut t, *u as u128);
            assert(t@ =~= decimal(*u as nat));
            tagged("uint", Some(Json::Str(t)))
        },
        TypedValue::Float(bits, _text) => tagged(
            "float",
            Some(Json::Number(JsonNumber { bits: *bits, unsigned: None })),
        ),
        TypedValue::Decimal(d) => tagged("decimal", Some(Json::Str(d.clone()))),
        TypedValue::BigInt(d) => tagged("int128", Some(Json::Str(d.clone()))),
        TypedValue::UBigInt(d) => tagged("uint128", Some(Json::Str(d.clone()))),
        TypedValue::Text(t) => tagged("text", Some(Json::Str(t.clone()))),
        TypedValue::Struct(fields) => {
            let n = fields.entries.len();
            let mut members: Vec<(String, Json)> = Vec::new();
            let mut i: usize = 0;
            while i < n
                invariant
                    n == fields.entries@.len(),
                    i <= n,
                    *v == TypedValue::Struct(*fields),
                    members@.map_values(|m: (String, Json)| (m.0@, m.1@)) == fields_json(
                        fields_model(*v, i as nat),
                    ),
                decreases n - i,
            {
                let entry = &fields.entries[i];
                proof {
                    vstd::std_specs::vec::axiom_vec_index_decreases(fields.entries, i as int);
                    lemma_fields_model_step(*v, i as nat);
                }
                let item = to_json_value(&entry.1);
                let ghost before = members@;
                members.push((entry.0.clone(), item));
                proof {
                    let fm = fields_model(*v, i as nat);
                    let fm1 = fields_model(*v, (i + 1) as nat);
                    assert(fm1.drop_last() =~= fm);
                    assert(members@.map_values(|m: (String, Json)| (m.0@, m.1@)) =~= before.map_values(
                        |m: (String, Json)| (m.0@, m.1@),
                    ).push((entry.0@, item@)));
                }
                i = i + 1;
            }
            let inner = crate::json::object(members);
            let mut outer: Vec<(String, Json)> = Vec::new();
            outer.push((String::from_str("f"), inner));
            outer.push((String::from_str("t"), crate::json::text("struct")));
            let r = crate::json::object(outer);
            proof {
                reveal_strlit("f");
                reveal_strlit("t");
                assert(fields_model(*v, n as nat) == fields_model(*v, fields.entries@.len()));
                assert(outer@.map_values(|m: (String, Json)| (m.0@, m.1@)) =~= seq![
                    ("f"@, JsonView::Object(fields_json(fields_model(*v, n as nat)))),
                    ("t"@, JsonView::Str("struct"@)),
                ]);
            }
            r
        },
    }
}

/// Rejects values that hold a non-finite floating-point number anywhere.
fn check_finite(v: &TypedValue) -> (r: bool)
    ensures
        r == model_finite(value_model(*v)),
    decreases v,
{
    match v {
        TypedValue::Float(bits, _) => (*bits / 0x10_0000_0000_0000) % 2048 != 2047,
        TypedValue::Struct(fields) => {
            let n = fields.entries.len();
            let mut i: usize = 0;
            while i < n
                invariant
                    n == fields.entries@.len(),
                    i <= n,
                    *v == TypedValue::Struct(*fields),
                    fields_finite(fields_model(*v, i as nat)),
                decreases n - i,
            {
                proof {
                    vstd::std_specs::vec::axiom_vec_index_decreases(fields.entries, i as int);
                    lemma_fields_model_step(*v, i as nat);
                    lemma_fields_finite_push(
                        fields_model(*v, i as nat),
                        (fields.entries@[i as int].0@, value_model(fields.entries@[i as int].1)),
                    );
                }
                if !check_finite(&fields.entries[i].1) {
                    proof {
                        lemma_fields_infinite_prefix(*v, (i + 1) as nat, n as nat);
                    }
                    return false;
                }
                i = i + 1;
            }
            true
        },
        _ => true,
    }
}

proof fn lemma_fields_infinite_prefix(v: TypedValue, k: nat, n: nat)
    requires
        v is Struct,
        k <= n <= v->Struct_0.entries@.len(),
        !fields_finite(fields_model(v, k)),
    ensures
        !fields_finite(fields_model(v, n)),
    decreases n - k,
{
    if k < n {
        lemma_fields_model_step(v, k);
        lemma_fields_finite_push(
            fields_model(v, k),
            (v->Struct_0.entries@[k as int].0@, value_model(v->Struct_0.entries@[k as int].1)),
        );
        lemma_fields_infinite_prefix(v, k + 1, n);
    }
}

proof fn lemma_fields_model_congruent(a: TypedValue, b: TypedValue, k: nat)
    requires
        a is Struct,
        b is Struct,
        k <= a->Struct_0.entries@.len(),
        k <= b->Struct_0.entries@.len(),
        forall|j: int|
            0 <= j < k ==> (#[trigger] a->Struct_0.entries@[j]).0@
                == b->Struct_0.entries@[j].0@ && value_model(a->Struct_0.entries@[j].1)
                == value_model(b->Struct_0.entries@[j].1),
    ensures
        fields_model(a, k) == fields_model(b, k),
    decreases k,
{
    if k > 0 {
        lemma_fields_model_congruent(a, b, (k - 1) as nat);
        lemma_fields_model_step(a, (k - 1) as nat);
        lemma_fields_model_step(b, (k - 1) as nat);
        assert(a->Struct_0.entries@[k - 1].0@ == b->Struct_0.entries@[k - 1].0@);
    }
}

impl TypedValue {
    /// A copy with the same content.
    pub fn duplicate(&self) -> (r: Self)
        ensures
            value_model(r) == value_model(*self),
        decreases self,
    {
        match self {
            TypedValue::Null => TypedValue::Null,
            TypedValue::Bool(b) => TypedValue::Bool(*b),
            TypedValue::Int(i) => TypedValue::Int(*i),
            TypedValue::UInt(u) => TypedValue::UInt(*u),
            TypedValue::Float(bits, text) => TypedValue::Float(*bits, text.clone()),
            TypedValue::Decimal(d) => TypedValue::Decimal(d.clone()),
            TypedValue::BigInt(d) => TypedValue::BigInt(d.clone()),
            TypedValue::UBigInt(d) => TypedValue::UBigInt(d.clone()),
            TypedValue::Text(t) => TypedValue::Text(t.clone()),
            TypedValue::Struct(fields) => {
                let copy = fields.duplicate();
                proof {
                    lemma_fields_model_congruent(
                        TypedValue::Struct(copy),
                        *self,
                        copy.entries@.len(),
                    );
                }
                TypedValue::Struct(copy)
            },
        }
    }
}

impl StructFields {
    /// A copy whose names and value contents equal those of `self`, position by position.
    pub fn duplicate(&self) -> (r: Self)
        ensures
            r.entries_view().len() == self.entries_view().len(),
            forall|j: int|
                0 <= j < r.entries_view().len() ==> (#[trigger] r.entries_view()[j]).0@
                    == self.entries_view()[j].0@ && value_model(r.entries_view()[j].1)
                    == value_model(self.entries_view()[j].1),
        decreases self,
    {
        proof {
            use_type_invariant(self);
        }
        let n = self.entries.len();
        let mut out: Vec<(String, TypedValue)> = Vec::new();
        let mut i: usize = 0;
        while i < n
            invariant
                n == self.entries@.len(),
                i <= n,
                out@.len() == i,
                Self::sorted_names(self.entries@),
                forall|j: int|
                    0 <= j < i ==> (#[trigger] out@[j]).0@ == self.entries@[j].0@ && value_model(
                        out@[j].1,
                    ) == value_model(self.entries@[j].1),
            decreases n - i,
        {
            let e = &self.entries[i];
            proof {
                vstd::std_specs::vec::axiom_vec_index_decreases(self.entries, i as int);
            }
            let name = e.0.clone();
            let value = e.1.duplicate();
            out.push((name, value));
            i = i + 1;
        }
        assert forall|a: int, b: int| 0 <= a < b < out@.len() implies text_lt(
            #[trigger] out@[a].0@,
            #[trigger] out@[b].0@,
        ) by {
            assert(text_lt(self.entries@[a].0@, self.entries@[b].0@));
        }
        StructFields { entries: out }
    }
}

/// Failure to encode a state (an unsupported or invalid value).
#[derive(Debug, Clone, PartialEq, Eq)]
pub struct SerializeError(String);

impl SerializeError {
    /// The error's text.
    pub closed spec fn text(&self) -> Seq<char> {
        self.0@
    }

    pub fn new(msg: &str) -> (r: Self)
        ensures
            r.text() == msg@,
    {
        SerializeError(String::from_str(msg))
    }

    pub fn message(&self) -> (r: &str)
        ensures
            r@ == self.text(),
    {
        self.0.as_str()
    }
}

/// A normalized state: its kind, its canonical bytes and its typed value.
#[derive(Debug, PartialEq)]
pub struct CanonicalState {
    kind: StateKind,
    canonical: Vec<u8>,
    value: TypedValue,
}

impl CanonicalState {
    #[verifier::type_invariant]
    spec fn well_formed(self) -> bool {
        match self.kind {
            StateKind::Text => self.value is Text && self.canonical@ == encode_utf8(
                self.value->Text_0@,
            ),
            StateKind::Struct => self.value is Struct && model_finite(value_model(self.value))
                && self.canonical@ == encode_utf8(struct_document(value_model(self.value))),
        }
    }

    /// Kind of the state.
    pub closed spec fn state_kind(&self) -> StateKind {
        self.kind
    }

    /// The canonical bytes: the raw UTF-8 text of a text state, the UTF-8 canonical document
    /// of a STRUCT state.
    pub closed spec fn bytes(&self) -> Seq<u8> {
        self.canonical@
    }

    /// Content of the typed value.
    pub closed spec fn model(&self) -> ValueModel {
        value_model(self.value)
    }

    pub fn kind(&self) -> (r: StateKind)
        ensures
            r == self.state_kind(),
    {
        self.kind
    }

    /// Deterministic canonical bytes (a text state's raw UTF-8 bytes).
    pub fn canonical_bytes(&self) -> (r: &[u8])
        ensures
            r@ == self.bytes(),
    {
        self.canonical.as_slice()
    }

    /// Typed value, used to build provider requests.
    pub fn value(&self) -> (r: &TypedValue)
        ensures
            value_model(*r) == self.model(),
            self.state_kind() == StateKind::Text ==> r is Text,
            self.state_kind() == StateKind::Struct ==> r is Struct,
    {
        proof {
            use_type_invariant(self);
        }
        &self.value
    }

    /// The text of a text state, as given; `None` for a STRUCT state.
    pub fn as_text(&self) -> (r: Option<&str>)
        ensures
            self.state_kind() == StateKind::Text <==> r is Some,
            r matches Some(t) ==> self.model() == ValueModel::Text(t@) && self.bytes()
                == encode_utf8(t@),
    {
        proof {
            use_type_invariant(self);
        }
        match &self.value {
            TypedValue::Text(s) => Some(s.as_str()),
            _ => None,
        }
    }

    /// Version of the canonical encoding that produced the bytes.
    pub fn canonical_version(&self) -> (r: u32)
        ensures
            r == CANONICAL_VERSION,
    {
        CANONICAL_VERSION
    }

    /// Self-describing canonical bytes: the magic `DJST`, the encoding version (big-endian),
    /// a kind tag (1 text, 2 struct) and the canonical bytes.
    pub fn versioned_canonical_bytes(&self) -> (r: Vec<u8>)
        ensures
            r@ == versioned_bytes(self.state_kind(), self.bytes()),
    {
        let mut out: Vec<u8> = Vec::new();
        out.push(0x44u8);
        out.push(0x4Au8);
        out.push(0x53u8);
        out.push(0x54u8);
        out.push(0u8);
        out.push(0u8);
        out.push(0u8);
        out.push(1u8);
        match self.kind {
            StateKind::Text => out.push(1u8),
            StateKind::Struct => out.push(2u8),
        }
        let n = self.canonical.len();
        let mut i: usize = 0;
        while i < n
            invariant
                n == self.canonical@.len(),
                i <= n,
                out@ == versioned_header(self.kind) + self.canonical@.subrange(0, i as int),
            decreases n - i,
        {
            out.push(self.canonical[i]);
            assert(out@ =~= versioned_header(self.kind) + self.canonical@.subrange(
                0,
                i + 1,
            ));
            i = i + 1;
        }
        assert(self.canonical@.subrange(0, n as int) =~= self.canonical@);
        out
    }

    /// An equal copy.
    pub fn duplicate(&self) -> (r: Self)
        ensures
            r.state_kind() == self.state_kind(),
            r.bytes() == self.bytes(),
            r.model() == self.model(),
    {
        proof {
            use_type_invariant(self);
        }
        let value = self.value.duplicate();
        let canonical = vstd::slice::slice_to_vec(self.canonical.as_slice());
        CanonicalState { kind: self.kind, canonical, value }
    }
}

/// Magic, version and kind tag in front of the canonical bytes.
pub open spec fn versioned_header(kind: StateKind) -> Seq<u8> {
    seq![0x44u8, 0x4Au8, 0x53u8, 0x54u8, 0u8, 0u8, 0u8, 1u8] + seq![
        match kind {
            StateKind::Text => 1u8,
            StateKind::Struct => 2u8,
        },
    ]
}

pub open spec fn versioned_bytes(kind: StateKind, bytes: Seq<u8>) -> Seq<u8> {
    versioned_header(kind) + bytes
}

/// VARCHAR state: the text is kept as it is and its UTF-8 bytes are the canonical bytes.
pub fn encode_text(text: &str) -> (r: CanonicalState)
    ensures
        r.state_kind() == StateKind::Text,
        r.bytes() == encode_utf8(text@),
        r.model() == ValueModel::Text(text@),
{
    CanonicalState {
        kind: StateKind::Text,
        canonical: text.as_bytes_vec(),
        value: TypedValue::Text(String::from_str(text)),
    }
}

/// STRUCT state: fields encoded in name order with type tags; non-finite floats are rejected.
pub fn encode_struct(fields: StructFields) -> (r: Result<CanonicalState, SerializeError>)
    ensures
        match r {
            Ok(state) => {
                &&& model_finite(value_model(TypedValue::Struct(fields)))
                &&& state.state_kind() == StateKind::Struct
                &&& state.model() == value_model(TypedValue::Struct(fields))
                &&& state.bytes() == encode_utf8(
                    struct_document(value_model(TypedValue::Struct(fields))),
                )
            },
            Err(e) => !model_finite(value_model(TypedValue::Struct(fields))) && e.text()
                == "state contains a non-finite floating point value"@,
        },
{
    let value = TypedValue::Struct(fields);
    if !check_finite(&value) {
        return Err(SerializeError::new("state contains a non-finite floating point value"));
    }
    let mut buf = String::new();
    push_str(&mut buf, "{\"canonical_version\":");
    push_decimal(&mut buf, CANONICAL_VERSION as u128);
    push_str(&mut buf, ",\"state\":");
    write_value(&mut buf, &value);
    push_str(&mut buf, "}");
    assert(buf@ =~= struct_document(value_model(value)));
    let canonical = buf.as_str().as_bytes_vec();
    Ok(CanonicalState { kind: StateKind::Struct, canonical, value })
}

/// Ten to the power `n`.
pub open spec fn pow10(n: nat) -> nat
    decreases n,
{
    if n == 0 {
        1
    } else {
        10 * pow10((n - 1) as nat)
    }
}

/// `d` left-padded with zeros to at least `width` characters.
pub open spec fn zero_pad(d: Seq<char>, width: nat) -> Seq<char> {
    if d.len() >= width {
        d
    } else {
        Seq::new((width - d.len()) as nat, |_i: int| '0') + d
    }
}

/// Exact decimal text of `raw / 10^scale`: a '-' for negative values, the integer part,
/// and for a positive scale a '.' followed by exactly `scale` fraction digits.
pub open spec fn decimal_text(raw: int, scale: nat) -> Seq<char> {
    let magnitude: nat = if raw < 0 {
        (-raw) as nat
    } else {
        raw as nat
    };
    let sign = if raw < 0 {
        seq!['-']
    } else {
        Seq::<char>::empty()
    };
    if scale == 0 {
        sign + decimal(magnitude)
    } else {
        sign + decimal(magnitude / pow10(scale)) + seq!['.'] + zero_pad(
            decimal(magnitude % pow10(scale)),
            scale,
        )
    }
}

proof fn lemma_pow10_monotonic(a: nat, b: nat)
    requires
        a <= b,
    ensures
        pow10(a) <= pow10(b),
    decreases b,
{
    if a < b {
        lemma_pow10_monotonic(a, (b - 1) as nat);
    }
}

proof fn lemma_pow10_positive(n: nat)
    ensures
        pow10(n) >= 1,
    decreases n,
{
    if n > 0 {
        lemma_pow10_positive((n - 1) as nat);
    }
}

proof fn lemma_pow10_bounds()
    ensures
        pow10(38) == 100000000000000000000000000000000000000nat,
        pow10(39) == 1000000000000000000000000000000000000000nat,
{
    reveal_with_fuel(pow10, 40);
}

/// Renders a DECIMAL's underlying integer and scale as exact decimal text.
pub fn format_decimal(raw: i128, scale: u8) -> (r: String)
    ensures
        r@ == decimal_text(raw as int, scale as nat),
{
    let negative = raw < 0;
    let magnitude: u128 = if raw == i128::MIN {
        0x8000_0000_0000_0000_0000_0000_0000_0000u128
    } else if negative {
        (0 - raw) as u128
    } else {
        raw as u128
    };
    let mut out = String::new();
    if negative {
        crate::text::push_char(&mut out, '-');
    }
    let ghost sign = out@;
    if scale == 0 {
        push_decimal(&mut out, magnitude);
        return out;
    }
    proof {
        lemma_pow10_bounds();
        lemma_pow10_positive(scale as nat);
    }
    let (quotient, remainder): (u128, u128) = if scale <= 38 {
        let mut p: u128 = 1;
        let mut k: u8 = 0;
        while k < scale
            invariant
                k <= scale <= 38,
                p as nat == pow10(k as nat),
            decreases scale - k,
        {
            proof {
                lemma_pow10_monotonic((k + 1) as nat, 38);
                lemma_pow10_bounds();
            }
            p = p * 10;
            k = k + 1;
        }
        (magnitude / p, magnitude % p)
    } else {
        proof {
            lemma_pow10_monotonic(39, scale as nat);
            assert(magnitude < pow10(scale as nat));
            vstd::arithmetic::div_mod::lemma_basic_div(magnitude as int, pow10(scale as nat) as int);
            vstd::arithmetic::div_mod::lemma_small_mod(magnitude as nat, pow10(scale as nat));
        }
        (0u128, magnitude)
    };
    push_decimal(&mut out, quotient);
    crate::text::push_char(&mut out, '.');
    let mut fraction = String::new();
    push_decimal(&mut fraction, remainder);
    let len = fraction.as_str().unicode_len();
    if len < scale as usize {
        let mut z: usize = 0;
        let ghost before = out@;
        while z < scale as usize - len
            invariant
                len < scale,
                z <= scale - len,
                out@ == before + Seq::new(z as nat, |_i: int| '0'),
            decreases scale - len - z,
        {
            crate::text::push_char(&mut out, '0');
            assert(out@ =~= before + Seq::new((z + 1) as nat, |_i: int| '0'));
            z = z + 1;
        }
    }
    push_str(&mut out, fraction.as_str());
    assert(out@ =~= decimal_text(raw as int, scale as nat));
    out
}

} // verus!
