//! The canonical JSON text of the hashed records: object fields in
//! declaration order, no whitespace, integers in decimal, and strings with
//! quotes, backslashes and control characters escaped.
use vstd::prelude::*;

use crate::models::{BlockHeader, CommitPayload, Transaction, TransactionPayload, UnsignedTransaction};
use crate::text::{decimal, push_decimal, push_str, string_push};

verus! {

/// The lower-case hexadecimal digit of a value below 16.
pub open spec fn hex_digit(n: nat) -> char {
    if n < 10 {
        digit_code(n)
    } else if n == 10 { 'a' } else if n == 11 { 'b' } else if n == 12 { 'c' }
    else if n == 13 { 'd' } else if n == 14 { 'e' } else { 'f' }
}

/// The decimal digit of a value below 10.
pub open spec fn digit_code(n: nat) -> char {
    crate::text::digit_char(n)
}

/// How JSON writes one character inside a string literal.
pub open spec fn json_escape_char(c: char) -> Seq<char> {
    if c == '"' {
        seq!['\\', '"']
    } else if c == '\\' {
        seq!['\\', '\\']
    } else if c == '\u{8}' {
        seq!['\\', 'b']
    } else if c == '\t' {
        seq!['\\', 't']
    } else if c == '\n' {
        seq!['\\', 'n']
    } else if c == '\u{c}' {
        seq!['\\', 'f']
    } else if c == '\r' {
        seq!['\\', 'r']
    } else if (c as u32) < 0x20 {
        seq!['\\', 'u', '0', '0', hex_digit((c as u32 / 16) as nat), hex_digit((c as u32 % 16) as nat)]
    } else {
        seq![c]
    }
}

/// The escaped contents of a JSON string literal.
pub open spec fn json_escape(s: Seq<char>) -> Seq<char>
    decreases s.len(),
{
    if s.len() == 0 {
        Seq::empty()
    } else {
        json_escape(s.drop_last()) + json_escape_char(s.last())
    }
}

/// A JSON string literal: the escaped contents between double quotes.
pub open spec fn json_string(s: Seq<char>) -> Seq<char> {
    seq!['"'] + json_escape(s) + seq!['"']
}

#[verifier::external_type_specification]
#[verifier::external_body]
pub struct ExSerdeJsonError(serde_json::Error);

/// The JSON string literal of a text.
///
/// Trusted: `serde_json::to_string` on a `str` writes it between double
/// quotes, escaping `"` and `\`, writing U+0008, U+0009, U+000A, U+000C and
/// U+000D as `\b`, `\t`, `\n`, `\f`, `\r`, the other characters below
/// U+0020 as `\u00` and two lower-case hex digits, and every other character
/// as it is (`format_escaped_str` and its `ESCAPE` table). Writing a `str`
/// into the crate's in-memory buffer does not fail.
#[verifier::external_body]
fn quote_json(s: &str) -> (res: Result<String, serde_json::Error>)
    ensures
        res is Ok,
        res matches Ok(text) ==> text@ == json_string(s@),
{
    serde_json::to_string(s)
}

/// Appends the JSON string literal of `s` to `out`.
pub fn push_json_string(out: &mut String, s: &str)
    ensures
        final(out)@ == old(out)@ + json_string(s@),
{
    match quote_json(s) {
        Ok(text) => push_str(out, &text),
        Err(_) => {},
    }
}

/// A record with a fixed canonical JSON text, used for content hashes.
pub trait CanonicalJson {
    /// The canonical JSON text of the record.
    spec fn json_spec(&self) -> Seq<char>;

    /// Appends the canonical JSON text of the record to `out`.
    fn write_json(&self, out: &mut String)
        ensures
            final(out)@ == old(out)@ + self.json_spec(),
    ;
}

impl CanonicalJson for TransactionPayload {
    open spec fn json_spec(&self) -> Seq<char> {
        "{\"from\":"@ + json_string(self.from@) + ",\"to\":"@ + json_string(self.to@)
            + ",\"amount\":"@ + decimal(self.amount as nat) + ",\"timestamp\":"@
            + decimal(self.timestamp as nat) + ",\"memo\":"@ + json_string(self.memo@) + "}"@
    }

    fn write_json(&self, out: &mut String) {
        let ghost start = out@;
        push_str(out, "{\"from\":");
        push_json_string(out, &self.from);
        push_str(out, ",\"to\":");
        push_json_string(out, &self.to);
        push_str(out, ",\"amount\":");
        push_decimal(out, self.amount);
        push_str(out, ",\"timestamp\":");
        push_decimal(out, self.timestamp);
        push_str(out, ",\"memo\":");
        push_json_string(out, &self.memo);
        push_str(out, "}");
        assert(out@ =~= start + self.json_spec());
    }
}

impl CanonicalJson for BlockHeader {
    open spec fn json_spec(&self) -> Seq<char> {
        "{\"height\":"@ + decimal(self.height as nat) + ",\"previous_hash\":"@
            + json_string(self.previous_hash@) + ",\"timestamp\":"@ + decimal(self.timestamp as nat)
            + ",\"nonce\":"@ + decimal(self.nonce as nat) + ",\"difficulty\":"@
            + decimal(self.difficulty as nat) + ",\"creator\":"@ + json_string(self.creator@)
            + ",\"merkle_root\":"@ + json_string(self.merkle_root@) + ",\"tx_count\":"@
            + decimal(self.tx_count as nat) + "}"@
    }

    fn write_json(&self, out: &mut String) {
        let ghost start = out@;
        push_str(out, "{\"height\":");
        push_decimal(out, self.height);
        push_str(out, ",\"previous_hash\":");
        push_json_string(out, &self.previous_hash);
        push_str(out, ",\"timestamp\":");
        push_decimal(out, self.timestamp);
        push_str(out, ",\"nonce\":");
        push_decimal(out, self.nonce);
        push_str(out, ",\"difficulty\":");
        push_decimal(out, self.difficulty as u64);
        push_str(out, ",\"creator\":");
        push_json_string(out, &self.creator);
        push_str(out, ",\"merkle_root\":");
        push_json_string(out, &self.merkle_root);
        push_str(out, ",\"tx_count\":");
        push_decimal(out, self.tx_count as u64);
        push_str(out, "}");
        assert(out@ =~= start + self.json_spec());
    }
}

/// Encoded items separated by commas.
pub open spec fn json_join(items: Seq<Seq<char>>) -> Seq<char>
    decreases items.len(),
{
    if items.len() == 0 {
        Seq::empty()
    } else if items.len() == 1 {
        items[0]
    } else {
        json_join(items.drop_last()) + seq![','] + items.last()
    }
}

/// A JSON array of already encoded items.
pub open spec fn json_array(items: Seq<Seq<char>>) -> Seq<char> {
    seq!['['] + json_join(items) + seq![']']
}

/// The JSON array of a list of strings.
pub open spec fn json_string_array(v: Seq<String>) -> Seq<char> {
    json_array(v.map_values(|s: String| json_string(s@)))
}

/// The JSON array of a list of ledger entries.
pub open spec fn json_transaction_array(v: Seq<Transaction>) -> Seq<char> {
    json_array(v.map_values(|tx: Transaction| tx.json_spec()))
}

pub(crate) proof fn lemma_join_push(items: Seq<Seq<char>>, x: Seq<char>)
    ensures
        json_join(items.push(x)) == if items.len() == 0 { x } else { json_join(items) + seq![','] + x },
{
    assert(items.push(x).drop_last() =~= items);
}

/// Appends the JSON array of a list of strings.
pub fn push_json_string_array(out: &mut String, v: &Vec<String>)
    ensures
        final(out)@ == old(out)@ + json_string_array(v@),
{
    let ghost start = out@;
    let ghost items = v@.map_values(|s: String| json_string(s@));
    string_push(out, '[');
    let mut i: usize = 0;
    while i < v.len()
        invariant
            items == v@.map_values(|s: String| json_string(s@)),
            i <= v@.len(),
            out@ == start + seq!['['] + json_join(items.take(i as int)),
        decreases v@.len() - i,
    {
        proof { lemma_join_push(items.take(i as int), items[i as int]); }
        assert(items.take(i + 1) == items.take(i as int).push(items[i as int]));
        if i > 0 {
            string_push(out, ',');
        }
        push_json_string(out, &v[i]);
        i = i + 1;
        assert(out@ =~= start + seq!['['] + json_join(items.take(i as int)));
    }
    assert(items.take(i as int) == items);
    string_push(out, ']');
    assert(out@ =~= start + json_string_array(v@));
}

/// Appends the JSON array of a list of ledger entries.
pub fn push_json_transaction_array(out: &mut String, v: &[Transaction])
    ensures
        final(out)@ == old(out)@ + json_transaction_array(v@),
{
    let ghost start = out@;
    let ghost items = v@.map_values(|tx: Transaction| tx.json_spec());
    string_push(out, '[');
    let mut i: usize = 0;
    while i < v.len()
        invariant
            items == v@.map_values(|tx: Transaction| tx.json_spec()),
            i <= v@.len(),
            out@ == start + seq!['['] + json_join(items.take(i as int)),
        decreases v@.len() - i,
    {
        proof { lemma_join_push(items.take(i as int), items[i as int]); }
        assert(items.take(i + 1) == items.take(i as int).push(items[i as int]));
        if i > 0 {
            string_push(out, ',');
        }
        v[i].write_json(out);
        i = i + 1;
        assert(out@ =~= start + seq!['['] + json_join(items.take(i as int)));
    }
    assert(items.take(i as int) == items);
    string_push(out, ']');
    assert(out@ =~= start + json_transaction_array(v@));
}

impl CanonicalJson for UnsignedTransaction {
    open spec fn json_spec(&self) -> Seq<char> {
        "{\"origin\":"@ + json_string(self.origin@) + ",\"seq\":"@ + decimal(self.seq as nat) + ",\"body\":"@
            + json_string(self.body@) + "}"@
    }

    fn write_json(&self, out: &mut String) {
        let ghost start = out@;
        push_str(out, "{\"origin\":");
        push_json_string(out, &self.origin);
        push_str(out, ",\"seq\":");
        push_decimal(out, self.seq);
        push_str(out, ",\"body\":");
        push_json_string(out, &self.body);
        push_str(out, "}");
        assert(out@ =~= start + self.json_spec());
    }
}

impl CanonicalJson for Transaction {
    open spec fn json_spec(&self) -> Seq<char> {
        "{\"id\":"@ + json_string(self.id@) + ",\"origin\":"@ + json_string(self.origin@) + ",\"seq\":"@
            + decimal(self.seq as nat) + ",\"body\":"@ + json_string(self.body@) + "}"@
    }

    fn write_json(&self, out: &mut String) {
        let ghost start = out@;
        push_str(out, "{\"id\":");
        push_json_string(out, &self.id);
        push_str(out, ",\"origin\":");
        push_json_string(out, &self.origin);
        push_str(out, ",\"seq\":");
        push_decimal(out, self.seq);
        push_str(out, ",\"body\":");
        push_json_string(out, &self.body);
        push_str(out, "}");
        assert(out@ =~= start + self.json_spec());
    }
}

impl CanonicalJson for [Transaction] {
    open spec fn json_spec(&self) -> Seq<char> {
        json_transaction_array(self@)
    }

    fn write_json(&self, out: &mut String) {
        push_json_transaction_array(out, self);
    }
}

impl CanonicalJson for CommitPayload {
    open spec fn json_spec(&self) -> Seq<char> {
        "{\"round\":"@ + decimal(self.round as nat) + ",\"prev_ledger_hash\":"@ + json_string(
            self.prev_ledger_hash@,
        ) + ",\"leader\":"@ + json_string(self.leader@) + ",\"members\":"@ + json_string_array(
            self.members@,
        ) + ",\"votes\":"@ + json_string_array(self.votes@) + ",\"txs\":"@ + json_transaction_array(
            self.txs@,
        ) + "}"@
    }

    fn write_json(&self, out: &mut String) {
        let ghost start = out@;
        push_str(out, "{\"round\":");
        push_decimal(out, self.round);
        push_str(out, ",\"prev_ledger_hash\":");
        push_json_string(out, &self.prev_ledger_hash);
        push_str(out, ",\"leader\":");
        push_json_string(out, &self.leader);
        push_str(out, ",\"members\":");
        push_json_string_array(out, &self.members);
        push_str(out, ",\"votes\":");
        push_json_string_array(out, &self.votes);
        push_str(out, ",\"txs\":");
        push_json_transaction_array(out, self.txs.as_slice());
        push_str(out, "}");
        assert(out@ =~= start + self.json_spec());
    }
}

} // verus!
