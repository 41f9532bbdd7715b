//! Lossless JSON text for transactions, blocks and the chain. The encoder
//! is stated exactly; the strict decoder accepts exactly the canonical
//! texts: whatever it accepts is the canonical text of the value it returns,
//! and every canonical text is accepted, so decoding an encoded value
//! succeeds and returns it unchanged.

use vstd::prelude::*;
use vstd::string::*;
use crate::block::{txs_view, Block, BlockView};
use crate::blockchain::{blocks_view, Blockchain, ChainView};
use crate::text::{chars_to_string, push_dec, spec_dec, spec_dec_digit, str_to_chars};
use crate::transaction::{Transaction, TxView};

verus! {

/// Decode failure: the text is not the canonical form of any value.
#[derive(Debug)]
pub struct JsonError;

/// One character of string content, escaped: quote and backslash get a
/// leading backslash, every other character stands as itself.
pub open spec fn spec_esc_char(c: char) -> Seq<char> {
    if c == '"' || c == '\\' {
        seq!['\\', c]
    } else {
        seq![c]
    }
}

/// Escaped string content.
pub open spec fn spec_escape(s: Seq<char>) -> Seq<char>
    decreases s.len(),
{
    if s.len() == 0 {
        Seq::empty()
    } else {
        spec_esc_char(s.first()) + spec_escape(s.drop_first())
    }
}

/// A quoted, escaped JSON string.
pub open spec fn spec_json_string(s: Seq<char>) -> Seq<char> {
    seq!['"'] + spec_escape(s) + seq!['"']
}

pub open spec fn spec_bool_json(b: bool) -> Seq<char> {
    if b {
        ("true")@
    } else {
        ("false")@
    }
}

/// The canonical JSON text of a transaction.
pub open spec fn spec_tx_json(t: TxView) -> Seq<char> {
    ("{\"from_address\":")@ + spec_json_string(t.from_address) + (",\"to_address\":")@
        + spec_json_string(t.to_address) + (",\"amount\":")@ + spec_dec(t.amount as nat) + (
    ",\"coinbase\":")@ + spec_bool_json(t.coinbase) + seq!['}']
}

/// The comma-separated items of a transaction array.
pub open spec fn spec_txs_items(txs: Seq<TxView>) -> Seq<char>
    decreases txs.len(),
{
    if txs.len() == 0 {
        Seq::empty()
    } else if txs.len() == 1 {
        spec_tx_json(txs[0])
    } else {
        spec_txs_items(txs.drop_last()) + seq![','] + spec_tx_json(txs.last())
    }
}

/// A JSON array of transactions.
pub open spec fn spec_txs_json(txs: Seq<TxView>) -> Seq<char> {
    seq!['['] + spec_txs_items(txs) + seq![']']
}

/// The canonical JSON text of a block.
pub open spec fn spec_block_json(b: BlockView) -> Seq<char> {
    ("{\"index\":")@ + spec_dec(b.index as nat) + (",\"timestamp\":")@ + spec_dec(
        b.timestamp as nat,
    ) + (",\"transactions\":")@ + spec_txs_json(b.transactions) + (",\"previous_hash\":")@
        + spec_json_string(b.previous_hash) + (",\"hash\":")@ + spec_json_string(b.hash) + (
    ",\"nonce\":")@ + spec_dec(b.nonce as nat) + seq!['}']
}

/// The comma-separated items of a block array.
pub open spec fn spec_blocks_items(blocks: Seq<BlockView>) -> Seq<char>
    decreases blocks.len(),
{
    if blocks.len() == 0 {
        Seq::empty()
    } else if blocks.len() == 1 {
        spec_block_json(blocks[0])
    } else {
        spec_blocks_items(blocks.drop_last()) + seq![','] + spec_block_json(blocks.last())
    }
}

/// A JSON array of blocks.
pub open spec fn spec_blocks_json(blocks: Seq<BlockView>) -> Seq<char> {
    seq!['['] + spec_blocks_items(blocks) + seq![']']
}

/// The canonical JSON text of the chain.
pub open spec fn spec_chain_json(c: ChainView) -> Seq<char> {
    ("{\"blocks\":")@ + spec_blocks_json(c.blocks) + (",\"unconfirmed_transactions\":")@
        + spec_txs_json(c.unconfirmed_transactions) + (",\"difficulty\":")@ + spec_dec(
        c.difficulty as nat,
    ) + seq!['}']
}

proof fn lemma_escape_snoc(s: Seq<char>, c: char)
    ensures
        spec_escape(s.push(c)) == spec_escape(s) + spec_esc_char(c),
    decreases s.len(),
{
    if s.len() == 0 {
        assert(s.push(c).first() == c);
        assert(s.push(c).drop_first() =~= Seq::<char>::empty());
        assert(spec_escape(s.push(c)) == spec_esc_char(c) + spec_escape(Seq::<char>::empty()));
        assert(spec_esc_char(c) + Seq::<char>::empty() =~= spec_esc_char(c));
        assert(spec_escape(s) + spec_esc_char(c) =~= spec_esc_char(c));
    } else {
        assert(s.push(c).first() == s.first());
        assert(s.push(c).drop_first() =~= s.drop_first().push(c));
        lemma_escape_snoc(s.drop_first(), c);
        assert(spec_escape(s.push(c)) =~= spec_escape(s) + spec_esc_char(c));
    }
}

/// Appends the quoted, escaped text of `s`.
fn push_json_string(out: &mut Vec<char>, s: &String)
    ensures
        final(out)@ == old(out)@ + spec_json_string(s@),
{
    out.push('"');
    let st = s.as_str();
    let n = st.unicode_len();
    let mut i: usize = 0;
    while i < n
        invariant
            n == st@.len(),
            st@ == s@,
            i <= n,
            out@ == old(out)@ + seq!['"'] + spec_escape(s@.subrange(0, i as int)),
        decreases n - i,
    {
        let c = st.get_char(i);
        if c == '"' || c == '\\' {
            out.push('\\');
            out.push(c);
        } else {
            out.push(c);
        }
        proof {
            assert(s@.subrange(0, i as int).push(s@[i as int]) =~= s@.subrange(0, i + 1));
            lemma_escape_snoc(s@.subrange(0, i as int), s@[i as int]);
            assert(out@ =~= old(out)@ + seq!['"'] + spec_escape(s@.subrange(0, i + 1)));
        }
        i = i + 1;
    }
    out.push('"');
    proof {
        assert(s@.subrange(0, s@.len() as int) =~= s@);
        assert(out@ =~= old(out)@ + spec_json_string(s@));
    }
}

/// Appends the canonical JSON text of a transaction.
fn push_tx_json(out: &mut Vec<char>, t: &Transaction)
    ensures
        final(out)@ == old(out)@ + spec_tx_json(t@),
{
    crate::text::push_str_chars(out, "{\"from_address\":");
    push_json_string(out, &t.from_address);
    crate::text::push_str_chars(out, ",\"to_address\":");
    push_json_string(out, &t.to_address);
    crate::text::push_str_chars(out, ",\"amount\":");
    push_dec(out, t.amount);
    crate::text::push_str_chars(out, ",\"coinbase\":");
    if t.coinbase {
        crate::text::push_str_chars(out, "true");
    } else {
        crate::text::push_str_chars(out, "false");
    }
    out.push('}');
    assert(out@ =~= old(out)@ + spec_tx_json(t@));
}

/// Appends a JSON array of transactions.
fn push_txs_json(out: &mut Vec<char>, txs: &Vec<Transaction>)
    ensures
        final(out)@ == old(out)@ + spec_txs_json(txs_view(txs@)),
{
    out.push('[');
    let n = txs.len();
    let mut i: usize = 0;
    while i < n
        invariant
            n == txs@.len(),
            i <= n,
            out@ == old(out)@ + seq!['['] + spec_txs_items(txs_view(txs@).subrange(0, i as int)),
        decreases n - i,
    {
        if i > 0 {
            out.push(',');
        }
        push_tx_json(out, &txs[i]);
        proof {
            let tv = txs_view(txs@);
            assert(tv.subrange(0, i + 1).drop_last() =~= tv.subrange(0, i as int));
            assert(tv.subrange(0, i + 1).last() == tv[i as int]);
            if i == 0 {
                assert(tv.subrange(0, 1)[0] == tv[0]);
            }
            assert(out@ =~= old(out)@ + seq!['['] + spec_txs_items(tv.subrange(0, i + 1)));
        }
        i = i + 1;
    }
    out.push(']');
    proof {
        assert(txs_view(txs@).subrange(0, n as int) =~= txs_view(txs@));
        assert(out@ =~= old(out)@ + spec_txs_json(txs_view(txs@)));
    }
}

/// Appends the canonical JSON text of a block.
fn push_block_json(out: &mut Vec<char>, b: &Block)
    ensures
        final(out)@ == old(out)@ + spec_block_json(b@),
{
    crate::text::push_str_chars(out, "{\"index\":");
    push_dec(out, b.index as u64);
    crate::text::push_str_chars(out, ",\"timestamp\":");
    push_dec(out, b.timestamp);
    crate::text::push_str_chars(out, ",\"transactions\":");
    push_txs_json(out, &b.transactions);
    crate::text::push_str_chars(out, ",\"previous_hash\":");
    push_json_string(out, &b.previous_hash);
    crate::text::push_str_chars(out, ",\"hash\":");
    push_json_string(out, &b.hash);
    crate::text::push_str_chars(out, ",\"nonce\":");
    push_dec(out, b.nonce);
    out.push('}');
    assert(out@ =~= old(out)@ + spec_block_json(b@));
}

/// Appends a JSON array of blocks.
fn push_blocks_json(out: &mut Vec<char>, blocks: &Vec<Block>)
    ensures
        final(out)@ == old(out)@ + spec_blocks_json(blocks_view(blocks@)),
{
    out.push('[');
    let n = blocks.len();
    let mut i: usize = 0;
    while i < n
        invariant
            n == blocks@.len(),
            i <= n,
            out@ == old(out)@ + seq!['['] + spec_blocks_items(
                blocks_view(blocks@).subrange(0, i as int),
            ),
        decreases n - i,
    {
        if i > 0 {
            out.push(',');
        }
        push_block_json(out, &blocks[i]);
        proof {
            let bv = blocks_view(blocks@);
            assert(bv.subrange(0, i + 1).drop_last() =~= bv.subrange(0, i as int));
            assert(bv.subrange(0, i + 1).last() == bv[i as int]);
            if i == 0 {
                assert(bv.subrange(0, 1)[0] == bv[0]);
            }
            assert(out@ =~= old(out)@ + seq!['['] + spec_blocks_items(bv.subrange(0, i + 1)));
        }
        i = i + 1;
    }
    out.push(']');
    proof {
        assert(blocks_view(blocks@).subrange(0, n as int) =~= blocks_view(blocks@));
        assert(out@ =~= old(out)@ + spec_blocks_json(blocks_view(blocks@)));
    }
}

impl Transaction {
    /// The canonical JSON text of the transaction.
    pub fn to_json(&self) -> (r: String)
        ensures
            r@ == spec_tx_json(self@),
    {
        let mut v: Vec<char> = Vec::new();
        push_tx_json(&mut v, self);
        chars_to_string(&v)
    }
}

impl Block {
    /// The canonical JSON text of the block; every field is kept, the stored
    /// hash included.
    pub fn to_json(&self) -> (r: String)
        ensures
            r@ == spec_block_json(self@),
    {
        let mut v: Vec<char> = Vec::new();
        push_block_json(&mut v, self);
        chars_to_string(&v)
    }
}

impl Blockchain {
    /// The canonical JSON text of the whole chain.
    pub fn to_json(&self) -> (r: String)
        ensures
            r@ == spec_chain_json(self@),
    {
        let mut v: Vec<char> = Vec::new();
        crate::text::push_str_chars(&mut v, "{\"blocks\":");
        push_blocks_json(&mut v, &self.blocks);
        crate::text::push_str_chars(&mut v, ",\"unconfirmed_transactions\":");
        push_txs_json(&mut v, &self.unconfirmed_transactions);
        crate::text::push_str_chars(&mut v, ",\"difficulty\":");
        push_dec(&mut v, self.difficulty);
        v.push('}');
        assert(v@ =~= spec_chain_json(self@));
        chars_to_string(&v)
    }

    /// The chain's text form; the same text `to_json` gives.
    pub fn to_string(&self) -> (r: String)
        ensures
            r@ == spec_chain_json(self@),
    {
        self.to_json()
    }
}

/// The numeric value of a decimal digit character, ten when none.
pub open spec fn spec_digit_val(c: char) -> int {
    if c == '0' {
        0
    } else if c == '1' {
        1
    } else if c == '2' {
        2
    } else if c == '3' {
        3
    } else if c == '4' {
        4
    } else if c == '5' {
        5
    } else if c == '6' {
        6
    } else if c == '7' {
        7
    } else if c == '8' {
        8
    } else if c == '9' {
        9
    } else {
        10
    }
}

pub open spec fn spec_is_digit(c: char) -> bool {
    spec_digit_val(c) < 10
}

/// The number a digit run names, most significant digit first.
pub open spec fn spec_fold_digits(r: Seq<char>) -> int
    decreases r.len(),
{
    if r.len() == 0 {
        0
    } else {
        spec_fold_digits(r.drop_last()) * 10 + spec_digit_val(r.last())
    }
}

proof fn lemma_fold_pos(r: Seq<char>)
    requires
        r.len() >= 1,
        forall|j: int| 0 <= j < r.len() ==> spec_is_digit(#[trigger] r[j]),
        r[0] != '0',
    ensures
        spec_fold_digits(r) >= 1,
    decreases r.len(),
{
    if r.len() == 1 {
        assert(spec_digit_val(r[0]) >= 1);
        assert(spec_fold_digits(r) == spec_fold_digits(r.drop_last()) * 10 + spec_digit_val(
            r.last(),
        ));
        assert(r.last() == r[0]);
    } else {
        assert(r.drop_last()[0] == r[0]);
        lemma_fold_pos(r.drop_last());
        assert(spec_fold_digits(r) == spec_fold_digits(r.drop_last()) * 10 + spec_digit_val(
            r.last(),
        ));
        assert(spec_digit_val(r.last()) >= 0);
        assert(spec_fold_digits(r.drop_last()) * 10 >= 10);
    }
}

proof fn lemma_canonical_digits(r: Seq<char>)
    requires
        r.len() >= 1,
        forall|j: int| 0 <= j < r.len() ==> spec_is_digit(#[trigger] r[j]),
        r[0] != '0',
    ensures
        spec_fold_digits(r) >= 1,
        spec_dec(spec_fold_digits(r) as nat) == r,
    decreases r.len(),
{
    lemma_fold_pos(r);
    if r.len() == 1 {
        let d = spec_digit_val(r[0]);
        assert(spec_dec(d as nat) == seq![spec_dec_digit(d)]);
        assert(spec_dec_digit(d) == r[0]);
        assert(seq![r[0]] =~= r);
    } else {
        let w = r.drop_last();
        assert(w[0] == r[0]);
        lemma_canonical_digits(w);
        let fw = spec_fold_digits(w);
        let d = spec_digit_val(r.last());
        let v = spec_fold_digits(r);
        assert(v == fw * 10 + d);
        assert(v / 10 == fw && v % 10 == d) by (nonlinear_arith)
            requires
                fw >= 1,
                0 <= d < 10,
                v == fw * 10 + d,
        ;
        assert(v >= 10) by (nonlinear_arith)
            requires
                fw >= 1,
                d >= 0,
                v == fw * 10 + d,
        ;
        assert(spec_dec(v as nat) == spec_dec(fw as nat) + seq![spec_dec_digit(d)]);
        assert(spec_dec_digit(d) == r.last());
        assert(spec_dec(fw as nat) + seq![r.last()] =~= w + seq![r.last()]);
        assert(w + seq![r.last()] =~= r);
    }
}

/// The expected text sits at `pos` in `s`.
pub open spec fn spec_lit_at(s: Seq<char>, pos: int, lit: Seq<char>) -> bool {
    pos + lit.len() <= s.len() && s.subrange(pos, pos + lit.len()) == lit
}

/// The canonical decimal text of `v` sits at `pos`, ended by a non-digit or
/// by the end of the text.
pub open spec fn spec_dec_at(s: Seq<char>, pos: int, v: u64) -> bool {
    &&& spec_lit_at(s, pos, spec_dec(v as nat))
    &&& (pos + spec_dec(v as nat).len() == s.len() || !spec_is_digit(
        s[pos + spec_dec(v as nat).len()],
    ))
}

proof fn lemma_fold_nonneg(r: Seq<char>)
    ensures
        spec_fold_digits(r) >= 0,
    decreases r.len(),
{
    if r.len() > 0 {
        lemma_fold_nonneg(r.drop_last());
    }
}

proof fn lemma_fold_prefix(r: Seq<char>, k: int)
    requires
        0 <= k <= r.len(),
    ensures
        spec_fold_digits(r.subrange(0, k)) <= spec_fold_digits(r),
    decreases r.len() - k,
{
    if k == r.len() {
        assert(r.subrange(0, k) =~= r);
    } else {
        lemma_fold_prefix(r, k + 1);
        assert(r.subrange(0, k + 1).drop_last() =~= r.subrange(0, k));
        assert(r.subrange(0, k + 1).last() == r[k]);
        lemma_fold_nonneg(r.subrange(0, k));
    }
}

fn digit_val(c: char) -> (r: Option<u64>)
    ensures
        r matches Some(d) ==> d < 10 && d == spec_digit_val(c) && spec_is_digit(c),
        r is None ==> !spec_is_digit(c),
{
    match c {
        '0' => Some(0),
        '1' => Some(1),
        '2' => Some(2),
        '3' => Some(3),
        '4' => Some(4),
        '5' => Some(5),
        '6' => Some(6),
        '7' => Some(7),
        '8' => Some(8),
        '9' => Some(9),
        _ => None,
    }
}

/// Consumes exactly the given literal at `pos`.
fn expect_lit(s: &Vec<char>, pos: usize, lit: &str) -> (r: Option<usize>)
    ensures
        r matches Some(p) ==> pos <= p <= s@.len() && p == pos + lit@.len() && s@.subrange(
            pos as int,
            p as int,
        ) == lit@,
        spec_lit_at(s@, pos as int, lit@) ==> r is Some,
{
    let n = lit.unicode_len();
    let slen = s.len();
    if pos > slen || n > slen - pos {
        return None;
    }
    let mut i: usize = 0;
    while i < n
        invariant
            n == lit@.len(),
            slen == s@.len(),
            pos + n <= slen,
            i <= n,
            forall|j: int| 0 <= j < i ==> s@[pos + j] == lit@[j],
        decreases n - i,
    {
        if s[pos + i] != lit.get_char(i) {
            proof {
                if spec_lit_at(s@, pos as int, lit@) {
                    assert(s@.subrange(pos as int, pos + n)[i as int] == s@[pos + i]);
                }
            }
            return None;
        }
        i = i + 1;
    }
    assert(s@.subrange(pos as int, (pos + n) as int) =~= lit@);
    Some(pos + n)
}

/// Consumes the canonical decimal text of a number at `pos`.
fn parse_u64(s: &Vec<char>, pos: usize) -> (r: Option<(u64, usize)>)
    ensures
        r matches Some((v, p)) ==> pos < p <= s@.len() && s@.subrange(pos as int, p as int)
            == spec_dec(v as nat),
        (exists|v: u64| spec_dec_at(s@, pos as int, v)) ==> r is Some,
        r matches Some((v, p)) ==> (v == 0 || p == s@.len() || !spec_is_digit(s@[p as int])),
{
    if pos >= s.len() {
        proof {
            if exists|vv: u64| spec_dec_at(s@, pos as int, vv) {
                let vv = choose|vv: u64| spec_dec_at(s@, pos as int, vv);
                crate::roundtrip::lemma_dec_digits(vv as nat);
                assert(false);
            }
        }
        return None;
    }
    let d0 = match digit_val(s[pos]) {
        Some(d) => d,
        None => {
            proof {
                if exists|vv: u64| spec_dec_at(s@, pos as int, vv) {
                    let vv = choose|vv: u64| spec_dec_at(s@, pos as int, vv);
                    crate::roundtrip::lemma_dec_digits(vv as nat);
                    assert(s@.subrange(pos as int, pos + spec_dec(vv as nat).len())[0] == s@[pos as int]);
                    assert(false);
                }
            }
            return None;
        },
    };
    if d0 == 0 {
        assert(s@.subrange(pos as int, pos + 1) =~= seq![s@[pos as int]]);
        assert(s@[pos as int] == spec_dec_digit(0));
        return Some((0, pos + 1));
    }
    let mut v: u64 = d0;
    let mut cur: usize = pos + 1;
    proof {
        let run = s@.subrange(pos as int, cur as int);
        assert(run =~= seq![s@[pos as int]]);
        assert(run.len() == 1);
        assert(run.drop_last() =~= Seq::<char>::empty());
        assert(spec_fold_digits(run.drop_last()) == 0);
        assert(run.last() == s@[pos as int]);
        assert(spec_fold_digits(run) == spec_digit_val(s@[pos as int]));
    }
    loop
        invariant
            pos < cur <= s@.len(),
            s@[pos as int] != '0',
            d0 != 0,
            forall|j: int| pos <= j < cur ==> spec_is_digit(#[trigger] s@[j]),
            v == spec_fold_digits(s@.subrange(pos as int, cur as int)),
        decreases s@.len() - cur,
    {
        if cur >= s.len() {
            proof {
                let run = s@.subrange(pos as int, cur as int);
                assert(run[0] == s@[pos as int]);
                lemma_canonical_digits(run);
            }
            return Some((v, cur));
        }
        let d = match digit_val(s[cur]) {
            Some(d) => d,
            None => {
                proof {
                    let run = s@.subrange(pos as int, cur as int);
                    assert(run[0] == s@[pos as int]);
                    lemma_canonical_digits(run);
                    assert(v >= 1);
                }
                return Some((v, cur));
            },
        };
        if v > (u64::MAX - d) / 10 {
            proof {
                if exists|vv: u64| spec_dec_at(s@, pos as int, vv) {
                    let vv = choose|vv: u64| spec_dec_at(s@, pos as int, vv);
                    crate::roundtrip::lemma_dec_digits(vv as nat);
                    let dv = spec_dec(vv as nat);
                    let ll = dv.len() as int;
                    if cur >= pos + ll {
                        if cur == pos + ll {
                            assert(spec_is_digit(s@[cur as int]));
                        } else {
                            assert(spec_is_digit(s@[pos + ll]));
                        }
                        assert(false);
                    }
                    assert(s@.subrange(pos as int, cur + 1) =~= dv.subrange(0, cur + 1 - pos)) by {
                        assert forall|ii: int| 0 <= ii < cur + 1 - pos implies #[trigger] dv[ii]
                            == s@[pos + ii] by {
                            assert(s@.subrange(pos as int, pos + ll)[ii] == s@[pos + ii]);
                        }
                    };
                    lemma_fold_prefix(dv, cur + 1 - pos);
                    crate::roundtrip::lemma_fold_of_dec(vv as nat);
                    assert(s@.subrange(pos as int, cur + 1).drop_last() =~= s@.subrange(
                        pos as int,
                        cur as int,
                    ));
                    assert(s@.subrange(pos as int, cur + 1).last() == s@[cur as int]);
                    assert(spec_fold_digits(s@.subrange(pos as int, cur + 1)) == v * 10 + d);
                    assert(v * 10 + d <= vv);
                    assert(v <= (u64::MAX - d) / 10) by (nonlinear_arith)
                        requires
                            v * 10 + d <= u64::MAX,
                            0 <= d < 10,
                    ;
                    assert(false);
                }
            }
            return None;
        }
        assert(v * 10 + d <= u64::MAX) by (nonlinear_arith)
            requires
                v <= (u64::MAX - d) / 10,
                0 <= d < 10,
        ;
        proof {
            assert(s@.subrange(pos as int, cur + 1).drop_last() =~= s@.subrange(
                pos as int,
                cur as int,
            ));
            assert(s@.subrange(pos as int, cur + 1).last() == s@[cur as int]);
        }
        v = v * 10 + d;
        cur = cur + 1;
    }
}

/// Consumes escaped string content up to and including the closing quote,
/// appending the decoded characters to `out`.
#[verifier::rlimit(100)]
fn parse_string_rest(s: &Vec<char>, pos: usize, out: &mut Vec<char>) -> (r: Option<usize>)
    ensures
        r matches Some(p) ==> {
            &&& pos < p <= s@.len()
            &&& old(out)@.len() <= final(out)@.len()
            &&& final(out)@.subrange(0, old(out)@.len() as int) == old(out)@
            &&& s@.subrange(pos as int, p as int) == spec_escape(
                final(out)@.subrange(old(out)@.len() as int, final(out)@.len() as int),
            ) + seq!['"']
        },
        (exists|w: Seq<char>| spec_lit_at(s@, pos as int, spec_escape(w) + seq!['"'])) ==> r
            is Some,
    decreases s@.len() - pos,
{
    if pos >= s.len() {
        proof {
            if exists|w: Seq<char>| spec_lit_at(s@, pos as int, spec_escape(w) + seq!['"']) {
                let w = choose|w: Seq<char>|
                    spec_lit_at(s@, pos as int, spec_escape(w) + seq!['"']);
                assert((spec_escape(w) + seq!['"']).len() >= 1);
                assert(false);
            }
        }
        return None;
    }
    let c = s[pos];
    if c == '"' {
        proof {
            assert(s@.subrange(pos as int, pos + 1) =~= seq![s@[pos as int]]);
            assert(out@.subrange(0, old(out)@.len() as int) =~= old(out)@);
            assert(out@.subrange(old(out)@.len() as int, out@.len() as int)
                =~= Seq::<char>::empty());
            assert(spec_escape(Seq::<char>::empty()) + seq!['"'] =~= seq!['"']);
        }
        return Some(pos + 1);
    }
    if c == '\\' {
        if pos + 1 >= s.len() {
            proof {
                if exists|w: Seq<char>| spec_lit_at(s@, pos as int, spec_escape(w) + seq!['"']) {
                    let w = choose|w: Seq<char>|
                        spec_lit_at(s@, pos as int, spec_escape(w) + seq!['"']);
                    let e = spec_escape(w) + seq!['"'];
                    assert(s@.subrange(pos as int, pos as int + e.len())[0] == s@[pos as int]);
                    if w.len() == 0 {
                        assert(e[0] == '"');
                    } else {
                        assert(spec_escape(w) == spec_esc_char(w.first()) + spec_escape(
                            w.drop_first(),
                        ));
                        assert(e[0] == spec_esc_char(w.first())[0]);
                        assert(w.first() == '"' || w.first() == '\\');
                        assert(e.len() >= 3);
                    }
                    assert(false);
                }
            }
            return None;
        }
        let c2 = s[pos + 1];
        if c2 == '"' || c2 == '\\' {
            let ghost pre = out@;
            out.push(c2);
            let r2 = parse_string_rest(s, pos + 2, out);
            match r2 {
                Some(p) => {
                    proof {
                        let oldlen = pre.len() as int;
                        let flen = out@.len() as int;
                        let added = out@.subrange(oldlen, flen);
                        let addedp = out@.subrange(oldlen + 1, flen);
                        assert(out@.subrange(0, oldlen + 1) == pre.push(c2));
                        assert(out@.subrange(0, oldlen + 1)[oldlen] == out@[oldlen]);
                        assert(out@[oldlen] == c2);
                        assert(added =~= seq![c2] + addedp);
                        assert(added.first() == c2);
                        assert(added.drop_first() =~= addedp);
                        assert(spec_escape(added) == spec_esc_char(c2) + spec_escape(addedp));
                        assert(spec_esc_char(c2) =~= seq!['\\', c2]);
                        assert(s@.subrange(pos as int, p as int) =~= seq![
                            s@[pos as int],
                            s@[pos as int + 1],
                        ] + s@.subrange(pos + 2, p as int));
                        assert(s@.subrange(pos as int, p as int) =~= spec_escape(added)
                            + seq!['"']);
                        assert(out@.subrange(0, oldlen) =~= pre);
                    }
                    Some(p)
                },
                None => {
                    proof {
                        if exists|w: Seq<char>|
                            spec_lit_at(s@, pos as int, spec_escape(w) + seq!['"']) {
                            let w = choose|w: Seq<char>|
                                spec_lit_at(s@, pos as int, spec_escape(w) + seq!['"']);
                            let e = spec_escape(w) + seq!['"'];
                            assert(s@.subrange(pos as int, pos as int + e.len())[0]
                                == s@[pos as int]);
                            if w.len() == 0 {
                                assert(e[0] == '"');
                                assert(false);
                            }
                            assert(spec_escape(w) == spec_esc_char(w.first()) + spec_escape(
                                w.drop_first(),
                            ));
                            assert(e[0] == spec_esc_char(w.first())[0]);
                            assert(w.first() == '"' || w.first() == '\\');
                            let ww = spec_escape(w.drop_first()) + seq!['"'];
                            assert(e =~= seq!['\\', w.first()] + ww);
                            assert(spec_lit_at(s@, pos as int + 2, ww)) by {
                                assert(s@.subrange(pos + 2, pos as int + e.len()) =~= ww) by {
                                    assert forall|k: int| 0 <= k < ww.len() implies #[trigger] ww[k]
                                        == s@[pos + 2 + k] by {
                                        assert(s@.subrange(pos as int, pos as int + e.len())[2 + k]
                                            == s@[pos + 2 + k]);
                                        assert(e[2 + k] == ww[k]);
                                    }
                                }
                            };
                            assert(false);
                        }
                    }
                    None
                },
            }
        } else {
            proof {
                if exists|w: Seq<char>| spec_lit_at(s@, pos as int, spec_escape(w) + seq!['"']) {
                    let w = choose|w: Seq<char>|
                        spec_lit_at(s@, pos as int, spec_escape(w) + seq!['"']);
                    let e = spec_escape(w) + seq!['"'];
                    assert(s@.subrange(pos as int, pos as int + e.len())[0] == s@[pos as int]);
                    if w.len() == 0 {
                        assert(e[0] == '"');
                        assert(false);
                    }
                    assert(spec_escape(w) == spec_esc_char(w.first()) + spec_escape(
                        w.drop_first(),
                    ));
                    assert(e[0] == spec_esc_char(w.first())[0]);
                    assert(w.first() == '"' || w.first() == '\\');
                    assert(e.len() >= 3);
                    assert(e[1] == spec_esc_char(w.first())[1]);
                    assert(s@.subrange(pos as int, pos as int + e.len())[1] == s@[pos as int + 1]);
                    assert(false);
                }
            }
            return None;
        }
    } else {
        let ghost pre = out@;
        out.push(c);
        let r2 = parse_string_rest(s, pos + 1, out);
        match r2 {
            Some(p) => {
                proof {
                    let oldlen = pre.len() as int;
                    let flen = out@.len() as int;
                    let added = out@.subrange(oldlen, flen);
                    let addedp = out@.subrange(oldlen + 1, flen);
                    assert(out@.subrange(0, oldlen + 1) == pre.push(c));
                    assert(out@.subrange(0, oldlen + 1)[oldlen] == out@[oldlen]);
                    assert(out@[oldlen] == c);
                    assert(added =~= seq![c] + addedp);
                    assert(added.first() == c);
                    assert(added.drop_first() =~= addedp);
                    assert(spec_escape(added) == spec_esc_char(c) + spec_escape(addedp));
                    assert(spec_esc_char(c) =~= seq![c]);
                    assert(s@.subrange(pos as int, p as int) =~= seq![s@[pos as int]]
                        + s@.subrange(pos + 1, p as int));
                    assert(s@.subrange(pos as int, p as int) =~= spec_escape(added) + seq!['"']);
                    assert(out@.subrange(0, oldlen) =~= pre);
                }
                Some(p)
            },
            None => {
                proof {
                    if exists|w: Seq<char>|
                        spec_lit_at(s@, pos as int, spec_escape(w) + seq!['"']) {
                        let w = choose|w: Seq<char>|
                            spec_lit_at(s@, pos as int, spec_escape(w) + seq!['"']);
                        let e = spec_escape(w) + seq!['"'];
                        assert(s@.subrange(pos as int, pos as int + e.len())[0] == s@[pos as int]);
                        if w.len() == 0 {
                            assert(e[0] == '"');
                            assert(false);
                        }
                        assert(spec_escape(w) == spec_esc_char(w.first()) + spec_escape(
                            w.drop_first(),
                        ));
                        assert(e[0] == spec_esc_char(w.first())[0]);
                        if w.first() == '"' || w.first() == '\\' {
                            assert(e[0] == '\\');
                            assert(false);
                        }
                        assert(w.first() == c);
                        let ww = spec_escape(w.drop_first()) + seq!['"'];
                        assert(e =~= seq![c] + ww);
                        assert(spec_lit_at(s@, pos as int + 1, ww)) by {
                            assert(s@.subrange(pos + 1, pos as int + e.len()) =~= ww) by {
                                assert forall|k: int| 0 <= k < ww.len() implies #[trigger] ww[k]
                                    == s@[pos + 1 + k] by {
                                    assert(s@.subrange(pos as int, pos as int + e.len())[1 + k]
                                        == s@[pos + 1 + k]);
                                    assert(e[1 + k] == ww[k]);
                                }
                            }
                        };
                        assert(false);
                    }
                }
                None
            },
        }
    }
}

/// Consumes a quoted, escaped string at `pos`.
fn parse_string(s: &Vec<char>, pos: usize) -> (r: Option<(String, usize)>)
    ensures
        r matches Some((v, p)) ==> pos < p <= s@.len() && s@.subrange(pos as int, p as int)
            == spec_json_string(v@),
        (exists|w: Seq<char>| spec_lit_at(s@, pos as int, spec_json_string(w))) ==> r is Some,
{
    if pos >= s.len() || s[pos] != '"' {
        proof {
            if exists|w: Seq<char>| spec_lit_at(s@, pos as int, spec_json_string(w)) {
                let w = choose|w: Seq<char>| spec_lit_at(s@, pos as int, spec_json_string(w));
                assert(spec_json_string(w)[0] == '"');
                assert(s@.subrange(pos as int, pos as int + spec_json_string(w).len())[0]
                    == s@[pos as int]);
                assert(false);
            }
        }
        return None;
    }
    let mut out: Vec<char> = Vec::new();
    match parse_string_rest(s, pos + 1, &mut out) {
        Some(p) => {
            proof {
                assert(out@.subrange(0, out@.len() as int) =~= out@);
                assert(s@.subrange(pos as int, p as int) =~= seq![s@[pos as int]] + s@.subrange(
                    pos + 1,
                    p as int,
                ));
                assert(s@.subrange(pos as int, p as int) =~= spec_json_string(out@));
            }
            let v = chars_to_string(&out);
            Some((v, p))
        },
        None => {
            proof {
                if exists|w: Seq<char>| spec_lit_at(s@, pos as int, spec_json_string(w)) {
                    let w = choose|w: Seq<char>| spec_lit_at(s@, pos as int, spec_json_string(w));
                    let e = spec_json_string(w);
                    let ww = spec_escape(w) + seq!['"'];
                    assert(e =~= seq!['"'] + ww);
                    assert(spec_lit_at(s@, pos as int + 1, ww)) by {
                        assert(s@.subrange(pos + 1, pos as int + e.len()) =~= ww) by {
                            assert forall|k: int| 0 <= k < ww.len() implies #[trigger] ww[k] == s@[
                                pos + 1 + k] by {
                                assert(s@.subrange(pos as int, pos as int + e.len())[1 + k] == s@[
                                    pos + 1 + k]);
                                assert(e[1 + k] == ww[k]);
                            }
                        }
                    };
                    assert(false);
                }
            }
            None
        },
    }
}

/// Consumes one expected character at `pos`.
fn expect_char(s: &Vec<char>, pos: usize, c: char) -> (r: Option<usize>)
    ensures
        r matches Some(p) ==> pos < p <= s@.len() && p == pos + 1 && s@.subrange(
            pos as int,
            p as int,
        ) == seq![c],
        (pos < s@.len() && s@[pos as int] == c) ==> r is Some,
{
    if pos < s.len() && s[pos] == c {
        assert(s@.subrange(pos as int, pos + 1) =~= seq![s@[pos as int]]);
        Some(pos + 1)
    } else {
        None
    }
}

/// Consumes `true` or `false` at `pos`.
fn parse_bool(s: &Vec<char>, pos: usize) -> (r: Option<(bool, usize)>)
    ensures
        r matches Some((b, p)) ==> pos <= p <= s@.len() && s@.subrange(pos as int, p as int)
            == spec_bool_json(b),
        (exists|b: bool| spec_lit_at(s@, pos as int, spec_bool_json(b))) ==> r is Some,
{
    if let Some(p) = expect_lit(s, pos, "true") {
        return Some((true, p));
    }
    if let Some(p) = expect_lit(s, pos, "false") {
        return Some((false, p));
    }
    proof {
        if exists|b: bool| spec_lit_at(s@, pos as int, spec_bool_json(b)) {
            let b = choose|b: bool| spec_lit_at(s@, pos as int, spec_bool_json(b));
            if b {
                assert(spec_lit_at(s@, pos as int, ("true")@));
            } else {
                assert(spec_lit_at(s@, pos as int, ("false")@));
            }
            assert(false);
        }
    }
    None
}

proof fn lemma_carve(s: Seq<char>, a: int, nn: int, head: Seq<char>, rest: Seq<char>)
    requires
        0 <= a <= nn == s.len(),
        s.subrange(a, nn) == head + rest,
    ensures
        spec_lit_at(s, a, head),
{
    assert(s.subrange(a, nn).len() == nn - a);
    assert((head + rest).len() == head.len() + rest.len());
    assert(a + head.len() <= nn);
    assert(s.subrange(a, a + head.len() as int) =~= head) by {
        assert forall|k: int| 0 <= k < head.len() implies s.subrange(a, a + head.len() as int)[k]
            == head[k] by {
            assert(s.subrange(a, nn)[k] == s[a + k]);
            assert((head + rest)[k] == head[k]);
        }
    }
}

proof fn lemma_lit_align(s: Seq<char>, a: int, b: int, nn: int, lit: Seq<char>, rest: Seq<char>)
    requires
        0 <= a <= b <= nn == s.len(),
        s.subrange(a, b) == lit,
        s.subrange(a, nn) == lit + rest,
    ensures
        s.subrange(b, nn) == rest,
{
    assert(s.subrange(a, nn) =~= lit + s.subrange(b, nn));
    crate::roundtrip::lemma_cancel(lit, s.subrange(b, nn), rest);
}

proof fn lemma_jstr_align(
    s: Seq<char>,
    a: int,
    b: int,
    nn: int,
    w: Seq<char>,
    w0: Seq<char>,
    rest: Seq<char>,
)
    requires
        0 <= a <= b <= nn == s.len(),
        s.subrange(a, b) == spec_json_string(w),
        s.subrange(a, nn) == spec_json_string(w0) + rest,
    ensures
        w == w0,
        s.subrange(b, nn) == rest,
{
    assert(s.subrange(a, nn) =~= spec_json_string(w) + s.subrange(b, nn));
    crate::roundtrip::lemma_jstr_unamb(w, w0, s.subrange(b, nn), rest);
}

proof fn lemma_bool_align(
    s: Seq<char>,
    a: int,
    b: int,
    nn: int,
    bb: bool,
    b0: bool,
    rest: Seq<char>,
)
    requires
        0 <= a <= b <= nn == s.len(),
        s.subrange(a, b) == spec_bool_json(bb),
        s.subrange(a, nn) == spec_bool_json(b0) + rest,
    ensures
        bb == b0,
        s.subrange(b, nn) == rest,
{
    assert(s.subrange(a, nn) =~= spec_bool_json(bb) + s.subrange(b, nn));
    crate::roundtrip::lemma_bool_unamb(bb, b0, s.subrange(b, nn), rest);
}

proof fn lemma_dec_carve(s: Seq<char>, a: int, nn: int, v0: u64, rest: Seq<char>)
    requires
        0 <= a <= nn == s.len(),
        s.subrange(a, nn) == spec_dec(v0 as nat) + rest,
        rest.len() > 0,
        !spec_is_digit(rest[0]),
    ensures
        spec_dec_at(s, a, v0),
{
    lemma_carve(s, a, nn, spec_dec(v0 as nat), rest);
    let ll = spec_dec(v0 as nat).len() as int;
    assert(s.subrange(a, nn)[ll] == s[a + ll]);
    assert((spec_dec(v0 as nat) + rest)[ll] == rest[0]);
}

proof fn lemma_dec_align(
    s: Seq<char>,
    a: int,
    b: int,
    nn: int,
    v: u64,
    v0: u64,
    rest: Seq<char>,
)
    requires
        0 <= a <= b <= nn == s.len(),
        s.subrange(a, b) == spec_dec(v as nat),
        v == 0 || b == nn || !spec_is_digit(s[b]),
        s.subrange(a, nn) == spec_dec(v0 as nat) + rest,
        rest.len() > 0,
        !spec_is_digit(rest[0]),
    ensures
        v == v0,
        s.subrange(b, nn) == rest,
{
    assert(s.subrange(a, nn) =~= spec_dec(v as nat) + s.subrange(b, nn));
    if b < nn && spec_is_digit(s[b]) {
        assert(v == 0);
        assert(spec_dec(v as nat) =~= seq!['0']);
        assert(b == a + 1);
        assert(s.subrange(a, b)[0] == s[a]);
        assert(s[a] == '0');
        crate::roundtrip::lemma_dec_leading(v0 as nat);
        crate::roundtrip::lemma_dec_digits(v0 as nat);
        assert(s.subrange(a, nn)[0] == s[a]);
        if v0 >= 1 {
            assert((spec_dec(v0 as nat) + rest)[0] == spec_dec(v0 as nat)[0]);
            assert(false);
        }
        assert(spec_dec(v0 as nat) =~= seq!['0']);
        assert(s.subrange(a, nn)[1] == s[a + 1]);
        assert((spec_dec(v0 as nat) + rest)[1] == rest[0]);
        assert(false);
    }
    if b < nn {
        assert(s.subrange(b, nn)[0] == s[b]);
    }
    crate::roundtrip::lemma_dec_unamb(v as nat, v0 as nat, s.subrange(b, nn), rest);
}


/// Consumes the canonical text of one transaction at `pos`.
#[verifier::rlimit(100)]
fn parse_tx(s: &Vec<char>, pos: usize) -> (r: Option<(Transaction, usize)>)
    ensures
        r matches Some((t, p)) ==> pos < p <= s@.len() && s@.subrange(pos as int, p as int)
            == spec_tx_json(t@),
        (exists|t: TxView| spec_lit_at(s@, pos as int, spec_tx_json(t))) ==> r is Some,
{
    let ghost has = exists|t: TxView| spec_lit_at(s@, pos as int, spec_tx_json(t));
    let ghost t0 = choose|t: TxView| spec_lit_at(s@, pos as int, spec_tx_json(t));
    let ghost nn = s@.len() as int;
    let ghost extra = s@.subrange(pos + spec_tx_json(t0).len(), nn);
    let ghost rem8 = seq!['}'] + extra;
    let ghost rem7 = spec_bool_json(t0.coinbase) + rem8;
    let ghost rem6 = (",\"coinbase\":")@ + rem7;
    let ghost rem5 = spec_dec(t0.amount as nat) + rem6;
    let ghost rem4 = (",\"amount\":")@ + rem5;
    let ghost rem3 = spec_json_string(t0.to_address) + rem4;
    let ghost rem2 = (",\"to_address\":")@ + rem3;
    let ghost rem1 = spec_json_string(t0.from_address) + rem2;
    proof {
        if has {
            crate::roundtrip::lemma_tx_json_reassoc(t0, extra);
            assert(s@.subrange(pos as int, nn) =~= spec_tx_json(t0) + extra);
            assert(s@.subrange(pos as int, nn) == ("{\"from_address\":")@ + rem1);
        }
    }
    let p1 = match expect_lit(s, pos, "{\"from_address\":") {
        Some(p) => p,
        None => {
            proof {
                if has {
                    lemma_carve(s@, pos as int, nn, ("{\"from_address\":")@, rem1);
                    assert(false);
                }
            }
            return None;
        },
    };
    proof {
        if has {
            lemma_lit_align(s@, pos as int, p1 as int, nn, ("{\"from_address\":")@, rem1);
        }
    }
    let (from_address, p2) = match parse_string(s, p1) {
        Some(x) => x,
        None => {
            proof {
                if has {
                    lemma_carve(s@, p1 as int, nn, spec_json_string(t0.from_address), rem2);
                    assert(false);
                }
            }
            return None;
        },
    };
    proof {
        if has {
            lemma_jstr_align(s@, p1 as int, p2 as int, nn, from_address@, t0.from_address, rem2);
        }
    }
    let p3 = match expect_lit(s, p2, ",\"to_address\":") {
        Some(p) => p,
        None => {
            proof {
                if has {
                    lemma_carve(s@, p2 as int, nn, (",\"to_address\":")@, rem3);
                    assert(false);
                }
            }
            return None;
        },
    };
    proof {
        if has {
            lemma_lit_align(s@, p2 as int, p3 as int, nn, (",\"to_address\":")@, rem3);
        }
    }
    let (to_address, p4) = match parse_string(s, p3) {
        Some(x) => x,
        None => {
            proof {
                if has {
                    lemma_carve(s@, p3 as int, nn, spec_json_string(t0.to_address), rem4);
                    assert(false);
                }
            }
            return None;
        },
    };
    proof {
        if has {
            lemma_jstr_align(s@, p3 as int, p4 as int, nn, to_address@, t0.to_address, rem4);
        }
    }
    let p5 = match expect_lit(s, p4, ",\"amount\":") {
        Some(p) => p,
        None => {
            proof {
                if has {
                    lemma_carve(s@, p4 as int, nn, (",\"amount\":")@, rem5);
                    assert(false);
                }
            }
            return None;
        },
    };
    proof {
        if has {
            lemma_lit_align(s@, p4 as int, p5 as int, nn, (",\"amount\":")@, rem5);
            reveal_strlit(",\"coinbase\":");
            assert(rem6[0] == ',');
            assert(rem6.len() > 0);
            assert(!spec_is_digit(','));
        }
    }
    let (amount, p6) = match parse_u64(s, p5) {
        Some(x) => x,
        None => {
            proof {
                if has {
                    lemma_dec_carve(s@, p5 as int, nn, t0.amount, rem6);
                    assert(false);
                }
            }
            return None;
        },
    };
    proof {
        if has {
            lemma_dec_align(s@, p5 as int, p6 as int, nn, amount, t0.amount, rem6);
        }
    }
    let p7 = match expect_lit(s, p6, ",\"coinbase\":") {
        Some(p) => p,
        None => {
            proof {
                if has {
                    lemma_carve(s@, p6 as int, nn, (",\"coinbase\":")@, rem7);
                    assert(false);
                }
            }
            return None;
        },
    };
    proof {
        if has {
            lemma_lit_align(s@, p6 as int, p7 as int, nn, (",\"coinbase\":")@, rem7);
        }
    }
    let (coinbase, p8) = match parse_bool(s, p7) {
        Some(x) => x,
        None => {
            proof {
                if has {
                    lemma_carve(s@, p7 as int, nn, spec_bool_json(t0.coinbase), rem8);
                    assert(false);
                }
            }
            return None;
        },
    };
    proof {
        if has {
            lemma_bool_align(s@, p7 as int, p8 as int, nn, coinbase, t0.coinbase, rem8);
        }
    }
    let p9 = match expect_char(s, p8, '}') {
        Some(p) => p,
        None => {
            proof {
                if has {
                    assert(s@.subrange(p8 as int, nn)[0] == s@[p8 as int]);
                    assert((seq!['}'] + extra)[0] == '}');
                    assert(false);
                }
            }
            return None;
        },
    };
    let t = Transaction { from_address, to_address, amount, coinbase };
    proof {
        assert(s@.subrange(pos as int, p9 as int) =~= s@.subrange(pos as int, p1 as int)
            + s@.subrange(p1 as int, p2 as int) + s@.subrange(p2 as int, p3 as int)
            + s@.subrange(p3 as int, p4 as int) + s@.subrange(p4 as int, p5 as int)
            + s@.subrange(p5 as int, p6 as int) + s@.subrange(p6 as int, p7 as int)
            + s@.subrange(p7 as int, p8 as int) + s@.subrange(p8 as int, p9 as int));
    }
    Some((t, p9))
}

proof fn lemma_txs_items_snoc(w: Seq<TxView>, x: TxView)
    ensures
        w.len() == 0 ==> spec_txs_items(w.push(x)) == spec_tx_json(x),
        w.len() >= 1 ==> spec_txs_items(w.push(x)) == spec_txs_items(w) + seq![',']
            + spec_tx_json(x),
{
    if w.len() == 0 {
        assert(w.push(x)[0] == x);
    } else {
        assert(w.push(x).drop_last() =~= w);
        assert(w.push(x).last() == x);
    }
}

proof fn lemma_blocks_items_snoc(w: Seq<BlockView>, x: BlockView)
    ensures
        w.len() == 0 ==> spec_blocks_items(w.push(x)) == spec_block_json(x),
        w.len() >= 1 ==> spec_blocks_items(w.push(x)) == spec_blocks_items(w) + seq![',']
            + spec_block_json(x),
{
    if w.len() == 0 {
        assert(w.push(x)[0] == x);
    } else {
        assert(w.push(x).drop_last() =~= w);
        assert(w.push(x).last() == x);
    }
}

proof fn lemma_txs_tail_cons(ap: Seq<TxView>)
    requires
        ap.len() >= 1,
    ensures
        crate::roundtrip::txs_tail(ap) == seq![','] + spec_txs_items(ap),
{
    crate::roundtrip::lemma_txs_items_front(ap);
    assert(crate::roundtrip::txs_tail(ap) == seq![','] + spec_tx_json(ap.first())
        + crate::roundtrip::txs_tail(ap.drop_first()));
    assert(crate::roundtrip::txs_tail(ap) =~= seq![','] + spec_txs_items(ap));
}

proof fn lemma_txs_items_cons(av: Seq<TxView>, apv: Seq<TxView>, t: TxView)
    requires
        av == seq![t] + apv,
        apv.len() >= 1,
    ensures
        spec_txs_items(av) == spec_tx_json(t) + (seq![','] + spec_txs_items(apv)),
{
    assert(av.first() == t);
    assert(av.drop_first() =~= apv);
    crate::roundtrip::lemma_txs_items_front(av);
    lemma_txs_tail_cons(apv);
    assert(spec_txs_items(av) =~= spec_tx_json(t) + (seq![','] + spec_txs_items(apv)));
}

/// Consumes the items and closing bracket of a non-empty transaction
/// array, appending the parsed transactions to `out`.
#[verifier::rlimit(100)]
fn parse_txs_rest(s: &Vec<char>, pos: usize, out: &mut Vec<Transaction>) -> (r: Option<usize>)
    ensures
        r matches Some(p) ==> {
            &&& pos < p <= s@.len()
            &&& old(out)@.len() < final(out)@.len()
            &&& final(out)@.subrange(0, old(out)@.len() as int) == old(out)@
            &&& s@.subrange(pos as int, p as int) == spec_txs_items(
                txs_view(final(out)@.subrange(old(out)@.len() as int, final(out)@.len() as int)),
            ) + seq![']']
        },
        (exists|a: Seq<TxView>|
            a.len() >= 1 && spec_lit_at(s@, pos as int, spec_txs_items(a) + seq![']'])) ==> r
            is Some,
    decreases s@.len() - pos,
{
    let ghost has = exists|a: Seq<TxView>|
        a.len() >= 1 && spec_lit_at(s@, pos as int, spec_txs_items(a) + seq![']']);
    let ghost a0 = choose|a: Seq<TxView>|
        a.len() >= 1 && spec_lit_at(s@, pos as int, spec_txs_items(a) + seq![']']);
    let ghost nn = s@.len() as int;
    let ghost extra = s@.subrange(pos + spec_txs_items(a0).len() + 1, nn);
    let ghost tail0 = crate::roundtrip::txs_tail(a0.drop_first());
    let ghost rem2 = tail0 + (seq![']'] + extra);
    proof {
        if has {
            crate::roundtrip::lemma_txs_items_front(a0);
            assert(s@.subrange(pos as int, nn) =~= (spec_txs_items(a0) + seq![']']) + extra);
            vstd::seq_lib::lemma_concat_associative(spec_txs_items(a0), seq![']'], extra);
            vstd::seq_lib::lemma_concat_associative(
                spec_tx_json(a0.first()),
                tail0,
                seq![']'] + extra,
            );
            assert(s@.subrange(pos as int, nn) == spec_tx_json(a0.first()) + rem2);
        }
    }
    let (t, p2) = match parse_tx(s, pos) {
        Some(x) => x,
        None => {
            proof {
                if has {
                    lemma_carve(s@, pos as int, nn, spec_tx_json(a0.first()), rem2);
                    assert(false);
                }
            }
            return None;
        },
    };
    let ghost pre = out@;
    out.push(t);
    proof {
        if has {
            assert(s@.subrange(pos as int, nn) =~= spec_tx_json(t@) + s@.subrange(p2 as int, nn));
            crate::roundtrip::lemma_tx_unamb(t@, a0.first(), s@.subrange(p2 as int, nn), rem2);
        }
    }
    if let Some(p3) = expect_char(s, p2, ']') {
        proof {
            assert(out@ == pre.push(t));
            let added = out@.subrange(pre.len() as int, out@.len() as int);
            assert(added =~= seq![t]);
            assert(txs_view(added) =~= seq![t@]);
            assert(spec_txs_items(txs_view(added)) == spec_tx_json(t@)) by {
                assert(txs_view(added)[0] == t@);
            }
            assert(s@.subrange(pos as int, p3 as int) =~= s@.subrange(pos as int, p2 as int)
                + s@.subrange(p2 as int, p3 as int));
            assert(s@.subrange(pos as int, p3 as int) =~= spec_txs_items(txs_view(added))
                + seq![']']);
            assert(out@.subrange(0, pre.len() as int) =~= pre);
        }
        return Some(p3);
    }
    let p4 = match expect_char(s, p2, ',') {
        Some(p) => p,
        None => {
            proof {
                if has {
                    assert(s@.subrange(p2 as int, nn)[0] == s@[p2 as int]);
                    if a0.len() == 1 {
                        assert(tail0 =~= Seq::<char>::empty());
                        assert(rem2 =~= seq![']'] + extra);
                        assert(false);
                    } else {
                        lemma_txs_tail_cons(a0.drop_first());
                        assert(tail0[0] == ',');
                        assert(rem2[0] == ',');
                        assert(false);
                    }
                }
            }
            return None;
        },
    };
    let r2 = parse_txs_rest(s, p4, out);
    match r2 {
        Some(p5) => {
            proof {
                let midlen = pre.len() as int + 1;
                let flen = out@.len() as int;
                assert(out@.subrange(0, midlen) == pre.push(t));
                let added = out@.subrange(pre.len() as int, flen);
                let addedp = out@.subrange(midlen, flen);
                assert(out@.subrange(0, midlen)[pre.len() as int] == out@[pre.len() as int]);
                assert(out@[pre.len() as int] == t);
                assert(added =~= seq![t] + addedp);
                assert(addedp.len() >= 1);
                let av = txs_view(added);
                let apv = txs_view(addedp);
                assert(av =~= seq![t@] + apv);
                lemma_txs_items_cons(av, apv, t@);
                assert(s@.subrange(pos as int, p5 as int) =~= s@.subrange(pos as int, p2 as int)
                    + s@.subrange(p2 as int, p4 as int) + s@.subrange(p4 as int, p5 as int));
                assert(s@.subrange(pos as int, p5 as int) =~= spec_txs_items(av) + seq![']']);
                assert(out@.subrange(0, pre.len() as int) =~= pre);
            }
            Some(p5)
        },
        None => {
            proof {
                if has {
                    assert(s@.subrange(p2 as int, nn)[0] == s@[p2 as int]);
                    if a0.len() == 1 {
                        assert(tail0 =~= Seq::<char>::empty());
                        assert(rem2 =~= seq![']'] + extra);
                        assert(false);
                    }
                    let ap = a0.drop_first();
                    assert(ap.len() >= 1);
                    lemma_txs_tail_cons(ap);
                    assert(s@.subrange(p2 as int, nn) =~= seq![','] + (spec_txs_items(ap) + (
                    seq![']'] + extra)));
                    assert(s@.subrange(p2 as int, nn) =~= seq![','] + s@.subrange(p4 as int, nn));
                    crate::roundtrip::lemma_cancel(
                        seq![','],
                        s@.subrange(p4 as int, nn),
                        spec_txs_items(ap) + (seq![']'] + extra),
                    );
                    vstd::seq_lib::lemma_concat_associative(
                        spec_txs_items(ap),
                        seq![']'],
                        extra,
                    );
                    lemma_carve(s@, p4 as int, nn, spec_txs_items(ap) + seq![']'], extra);
                    assert(false);
                }
            }
            None
        },
    }
}

/// Consumes a canonical transaction array at `pos`.
fn parse_txs(s: &Vec<char>, pos: usize) -> (r: Option<(Vec<Transaction>, usize)>)
    ensures
        r matches Some((v, p)) ==> pos < p <= s@.len() && s@.subrange(pos as int, p as int)
            == spec_txs_json(txs_view(v@)),
        (exists|a: Seq<TxView>| spec_lit_at(s@, pos as int, spec_txs_json(a))) ==> r is Some,
{
    let ghost has = exists|a: Seq<TxView>| spec_lit_at(s@, pos as int, spec_txs_json(a));
    let ghost a0 = choose|a: Seq<TxView>| spec_lit_at(s@, pos as int, spec_txs_json(a));
    let ghost nn = s@.len() as int;
    let ghost extra = s@.subrange(pos + spec_txs_json(a0).len(), nn);
    let ghost rem1 = spec_txs_items(a0) + (seq![']'] + extra);
    proof {
        if has {
            assert(s@.subrange(pos as int, nn) =~= spec_txs_json(a0) + extra);
            vstd::seq_lib::lemma_concat_associative(
                seq!['['] + spec_txs_items(a0),
                seq![']'],
                extra,
            );
            vstd::seq_lib::lemma_concat_associative(
                seq!['['],
                spec_txs_items(a0),
                seq![']'] + extra,
            );
            assert(s@.subrange(pos as int, nn) == seq!['['] + rem1);
        }
    }
    let p1 = match expect_char(s, pos, '[') {
        Some(p) => p,
        None => {
            proof {
                if has {
                    lemma_carve(s@, pos as int, nn, seq!['['], rem1);
                    assert(s@.subrange(pos as int, pos as int + 1)[0] == s@[pos as int]);
                    assert(false);
                }
            }
            return None;
        },
    };
    proof {
        if has {
            lemma_lit_align(s@, pos as int, p1 as int, nn, seq!['['], rem1);
        }
    }
    if let Some(p2) = expect_char(s, p1, ']') {
        let v: Vec<Transaction> = Vec::new();
        proof {
            assert(txs_view(v@) =~= Seq::<TxView>::empty());
            assert(s@.subrange(pos as int, p2 as int) =~= s@.subrange(pos as int, p1 as int)
                + s@.subrange(p1 as int, p2 as int));
            assert(s@.subrange(pos as int, p2 as int) =~= spec_txs_json(txs_view(v@)));
        }
        return Some((v, p2));
    }
    let mut items_vec: Vec<Transaction> = Vec::new();
    match parse_txs_rest(s, p1, &mut items_vec) {
        Some(p) => {
            proof {
                assert(items_vec@.subrange(0, items_vec@.len() as int) =~= items_vec@);
                assert(s@.subrange(pos as int, p as int) =~= s@.subrange(pos as int, p1 as int)
                    + s@.subrange(p1 as int, p as int));
                assert(s@.subrange(pos as int, p as int) =~= spec_txs_json(txs_view(items_vec@)));
            }
            Some((items_vec, p))
        },
        None => {
            proof {
                if has {
                    if a0.len() == 0 {
                        assert(rem1 =~= seq![']'] + extra);
                        assert(s@.subrange(p1 as int, nn)[0] == s@[p1 as int]);
                        assert(false);
                    }
                    vstd::seq_lib::lemma_concat_associative(
                        spec_txs_items(a0),
                        seq![']'],
                        extra,
                    );
                    lemma_carve(s@, p1 as int, nn, spec_txs_items(a0) + seq![']'], extra);
                    assert(false);
                }
            }
            None
        },
    }
}

/// Consumes the canonical text of one block at `pos`.
#[verifier::rlimit(100)]
fn parse_block(s: &Vec<char>, pos: usize) -> (r: Option<(Block, usize)>)
    ensures
        r matches Some((b, p)) ==> pos < p <= s@.len() && s@.subrange(pos as int, p as int)
            == spec_block_json(b@),
        (exists|b: BlockView| spec_lit_at(s@, pos as int, spec_block_json(b))) ==> r is Some,
{
    let ghost has = exists|b: BlockView| spec_lit_at(s@, pos as int, spec_block_json(b));
    let ghost b0 = choose|b: BlockView| spec_lit_at(s@, pos as int, spec_block_json(b));
    let ghost nn = s@.len() as int;
    let ghost extra = s@.subrange(pos + spec_block_json(b0).len(), nn);
    let ghost rem12 = seq!['}'] + extra;
    let ghost rem11 = spec_dec(b0.nonce as nat) + rem12;
    let ghost rem10 = (",\"nonce\":")@ + rem11;
    let ghost rem9 = spec_json_string(b0.hash) + rem10;
    let ghost rem8 = (",\"hash\":")@ + rem9;
    let ghost rem7 = spec_json_string(b0.previous_hash) + rem8;
    let ghost rem6 = (",\"previous_hash\":")@ + rem7;
    let ghost rem5 = spec_txs_json(b0.transactions) + rem6;
    let ghost rem4 = (",\"transactions\":")@ + rem5;
    let ghost rem3 = spec_dec(b0.timestamp as nat) + rem4;
    let ghost rem2 = (",\"timestamp\":")@ + rem3;
    let ghost rem1 = spec_dec(b0.index as nat) + rem2;
    proof {
        if has {
            crate::roundtrip::lemma_block_json_reassoc(b0, extra);
            assert(s@.subrange(pos as int, nn) =~= spec_block_json(b0) + extra);
            assert(s@.subrange(pos as int, nn) == ("{\"index\":")@ + rem1);
        }
    }
    let p1 = match expect_lit(s, pos, "{\"index\":") {
        Some(p) => p,
        None => {
            proof {
                if has {
                    lemma_carve(s@, pos as int, nn, ("{\"index\":")@, rem1);
                    assert(false);
                }
            }
            return None;
        },
    };
    proof {
        if has {
            lemma_lit_align(s@, pos as int, p1 as int, nn, ("{\"index\":")@, rem1);
            reveal_strlit(",\"timestamp\":");
            assert(rem2[0] == ',');
            assert(rem2.len() > 0);
            assert(!spec_is_digit(','));
            assert((b0.index as u64) as nat == b0.index as nat);
        }
    }
    let (index64, p2) = match parse_u64(s, p1) {
        Some(x) => x,
        None => {
            proof {
                if has {
                    lemma_dec_carve(s@, p1 as int, nn, b0.index as u64, rem2);
                    assert(false);
                }
            }
            return None;
        },
    };
    proof {
        if has {
            lemma_dec_align(s@, p1 as int, p2 as int, nn, index64, b0.index as u64, rem2);
        }
    }
    if index64 > u32::MAX as u64 {
        proof {
            if has {
                assert(false);
            }
        }
        return None;
    }
    let index = index64 as u32;
    let p3 = match expect_lit(s, p2, ",\"timestamp\":") {
        Some(p) => p,
        None => {
            proof {
                if has {
                    lemma_carve(s@, p2 as int, nn, (",\"timestamp\":")@, rem3);
                    assert(false);
                }
            }
            return None;
        },
    };
    proof {
        if has {
            lemma_lit_align(s@, p2 as int, p3 as int, nn, (",\"timestamp\":")@, rem3);
            reveal_strlit(",\"transactions\":");
            assert(rem4[0] == ',');
            assert(rem4.len() > 0);
            assert(!spec_is_digit(','));
        }
    }
    let (timestamp, p4) = match parse_u64(s, p3) {
        Some(x) => x,
        None => {
            proof {
                if has {
                    lemma_dec_carve(s@, p3 as int, nn, b0.timestamp, rem4);
                    assert(false);
                }
            }
            return None;
        },
    };
    proof {
        if has {
            lemma_dec_align(s@, p3 as int, p4 as int, nn, timestamp, b0.timestamp, rem4);
        }
    }
    let p5 = match expect_lit(s, p4, ",\"transactions\":") {
        Some(p) => p,
        None => {
            proof {
                if has {
                    lemma_carve(s@, p4 as int, nn, (",\"transactions\":")@, rem5);
                    assert(false);
                }
            }
            return None;
        },
    };
    proof {
        if has {
            lemma_lit_align(s@, p4 as int, p5 as int, nn, (",\"transactions\":")@, rem5);
        }
    }
    let (transactions, p6) = match parse_txs(s, p5) {
        Some(x) => x,
        None => {
            proof {
                if has {
                    lemma_carve(s@, p5 as int, nn, spec_txs_json(b0.transactions), rem6);
                    assert(false);
                }
            }
            return None;
        },
    };
    proof {
        if has {
            assert(s@.subrange(p5 as int, nn) =~= spec_txs_json(txs_view(transactions@))
                + s@.subrange(p6 as int, nn));
            crate::roundtrip::lemma_txs_json_unamb(
                txs_view(transactions@),
                b0.transactions,
                s@.subrange(p6 as int, nn),
                rem6,
            );
        }
    }
    let p7 = match expect_lit(s, p6, ",\"previous_hash\":") {
        Some(p) => p,
        None => {
            proof {
                if has {
                    lemma_carve(s@, p6 as int, nn, (",\"previous_hash\":")@, rem7);
                    assert(false);
                }
            }
            return None;
        },
    };
    proof {
        if has {
            lemma_lit_align(s@, p6 as int, p7 as int, nn, (",\"previous_hash\":")@, rem7);
        }
    }
    let (previous_hash, p8) = match parse_string(s, p7) {
        Some(x) => x,
        None => {
            proof {
                if has {
                    lemma_carve(s@, p7 as int, nn, spec_json_string(b0.previous_hash), rem8);
                    assert(false);
                }
            }
            return None;
        },
    };
    proof {
        if has {
            lemma_jstr_align(
                s@,
                p7 as int,
                p8 as int,
                nn,
                previous_hash@,
                b0.previous_hash,
                rem8,
            );
        }
    }
    let p9 = match expect_lit(s, p8, ",\"hash\":") {
        Some(p) => p,
        None => {
            proof {
                if has {
                    lemma_carve(s@, p8 as int, nn, (",\"hash\":")@, rem9);
                    assert(false);
                }
            }
            return None;
        },
    };
    proof {
        if has {
            lemma_lit_align(s@, p8 as int, p9 as int, nn, (",\"hash\":")@, rem9);
        }
    }
    let (hash, p10) = match parse_string(s, p9) {
        Some(x) => x,
        None => {
            proof {
                if has {
                    lemma_carve(s@, p9 as int, nn, spec_json_string(b0.hash), rem10);
                    assert(false);
                }
            }
            return None;
        },
    };
    proof {
        if has {
            lemma_jstr_align(s@, p9 as int, p10 as int, nn, hash@, b0.hash, rem10);
        }
    }
    let p11 = match expect_lit(s, p10, ",\"nonce\":") {
        Some(p) => p,
        None => {
            proof {
                if has {
                    lemma_carve(s@, p10 as int, nn, (",\"nonce\":")@, rem11);
                    assert(false);
                }
            }
            return None;
        },
    };
    proof {
        if has {
            lemma_lit_align(s@, p10 as int, p11 as int, nn, (",\"nonce\":")@, rem11);
            assert(rem12[0] == '}');
            assert(rem12.len() > 0);
            assert(!spec_is_digit('}'));
        }
    }
    let (nonce, p12) = match parse_u64(s, p11) {
        Some(x) => x,
        None => {
            proof {
                if has {
                    lemma_dec_carve(s@, p11 as int, nn, b0.nonce, rem12);
                    assert(false);
                }
            }
            return None;
        },
    };
    proof {
        if has {
            lemma_dec_align(s@, p11 as int, p12 as int, nn, nonce, b0.nonce, rem12);
        }
    }
    let p13 = match expect_char(s, p12, '}') {
        Some(p) => p,
        None => {
            proof {
                if has {
                    assert(s@.subrange(p12 as int, nn)[0] == s@[p12 as int]);
                    assert((seq!['}'] + extra)[0] == '}');
                    assert(false);
                }
            }
            return None;
        },
    };
    let b = Block { index, timestamp, transactions, previous_hash, hash, nonce };
    proof {
        assert(s@.subrange(pos as int, p13 as int) =~= s@.subrange(pos as int, p1 as int)
            + s@.subrange(p1 as int, p2 as int) + s@.subrange(p2 as int, p3 as int)
            + s@.subrange(p3 as int, p4 as int) + s@.subrange(p4 as int, p5 as int)
            + s@.subrange(p5 as int, p6 as int) + s@.subrange(p6 as int, p7 as int)
            + s@.subrange(p7 as int, p8 as int) + s@.subrange(p8 as int, p9 as int)
            + s@.subrange(p9 as int, p10 as int) + s@.subrange(p10 as int, p11 as int)
            + s@.subrange(p11 as int, p12 as int) + s@.subrange(p12 as int, p13 as int));
        assert(spec_dec(b@.index as nat) == spec_dec(index64 as nat));
    }
    Some((b, p13))
}

proof fn lemma_blocks_tail_cons(ap: Seq<BlockView>)
    requires
        ap.len() >= 1,
    ensures
        crate::roundtrip::blocks_tail(ap) == seq![','] + spec_blocks_items(ap),
{
    crate::roundtrip::lemma_blocks_items_front(ap);
    assert(crate::roundtrip::blocks_tail(ap) == seq![','] + spec_block_json(ap.first())
        + crate::roundtrip::blocks_tail(ap.drop_first()));
    assert(crate::roundtrip::blocks_tail(ap) =~= seq![','] + spec_blocks_items(ap));
}

proof fn lemma_blocks_items_cons(av: Seq<BlockView>, apv: Seq<BlockView>, b: BlockView)
    requires
        av == seq![b] + apv,
        apv.len() >= 1,
    ensures
        spec_blocks_items(av) == spec_block_json(b) + (seq![','] + spec_blocks_items(apv)),
{
    assert(av.first() == b);
    assert(av.drop_first() =~= apv);
    crate::roundtrip::lemma_blocks_items_front(av);
    lemma_blocks_tail_cons(apv);
    assert(spec_blocks_items(av) =~= spec_block_json(b) + (seq![','] + spec_blocks_items(apv)));
}

proof fn lemma_blocks_rest_head(s: Seq<char>, pos: int, a0: Seq<BlockView>, nn: int)
    requires
        nn == s.len(),
        0 <= pos,
        a0.len() >= 1,
        spec_lit_at(s, pos, spec_blocks_items(a0) + seq![']']),
    ensures
        s.subrange(pos, nn) == spec_block_json(a0.first()) + (crate::roundtrip::blocks_tail(
            a0.drop_first(),
        ) + (seq![']'] + s.subrange(pos + spec_blocks_items(a0).len() + 1, nn))),
{
    let extra = s.subrange(pos + spec_blocks_items(a0).len() + 1, nn);
    crate::roundtrip::lemma_blocks_items_front(a0);
    assert(s.subrange(pos, nn) =~= (spec_blocks_items(a0) + seq![']']) + extra);
    vstd::seq_lib::lemma_concat_associative(spec_blocks_items(a0), seq![']'], extra);
    vstd::seq_lib::lemma_concat_associative(
        spec_block_json(a0.first()),
        crate::roundtrip::blocks_tail(a0.drop_first()),
        seq![']'] + extra,
    );
}

proof fn lemma_blocks_rest_single(s: Seq<char>, pos: int, p2: int, p3: int, bv: BlockView)
    requires
        0 <= pos <= p2 <= p3 <= s.len(),
        s.subrange(pos, p2) == spec_block_json(bv),
        s.subrange(p2, p3) == seq![']'],
    ensures
        s.subrange(pos, p3) == spec_blocks_items(seq![bv]) + seq![']'],
{
    assert(spec_blocks_items(seq![bv]) == spec_block_json(bv)) by {
        assert(seq![bv][0] == bv);
    }
    assert(s.subrange(pos, p3) =~= s.subrange(pos, p2) + s.subrange(p2, p3));
    assert(s.subrange(pos, p3) =~= spec_blocks_items(seq![bv]) + seq![']']);
}

proof fn lemma_blocks_rest_compose(
    s: Seq<char>,
    pos: int,
    p2: int,
    p4: int,
    p5: int,
    bv: BlockView,
    apv: Seq<BlockView>,
)
    requires
        0 <= pos <= p2 <= p4 <= p5 <= s.len(),
        s.subrange(pos, p2) == spec_block_json(bv),
        s.subrange(p2, p4) == seq![','],
        s.subrange(p4, p5) == spec_blocks_items(apv) + seq![']'],
        apv.len() >= 1,
    ensures
        s.subrange(pos, p5) == spec_blocks_items(seq![bv] + apv) + seq![']'],
{
    lemma_blocks_items_cons(seq![bv] + apv, apv, bv);
    assert(s.subrange(pos, p5) =~= s.subrange(pos, p2) + s.subrange(p2, p4) + s.subrange(p4, p5));
    assert(s.subrange(pos, p5) =~= spec_blocks_items(seq![bv] + apv) + seq![']']);
}

proof fn lemma_blocks_rest_step(s: Seq<char>, p2: int, p4: int, nn: int, ap: Seq<BlockView>, extra: Seq<char>)
    requires
        nn == s.len(),
        0 <= p2,
        p4 == p2 + 1,
        p4 <= nn,
        ap.len() >= 1,
        s.subrange(p2, nn) == crate::roundtrip::blocks_tail(ap) + (seq![']'] + extra),
    ensures
        spec_lit_at(s, p4, spec_blocks_items(ap) + seq![']']),
{
    lemma_blocks_tail_cons(ap);
    assert(s.subrange(p2, nn) =~= seq![','] + (spec_blocks_items(ap) + (seq![']'] + extra)));
    assert(s.subrange(p2, nn) =~= seq![','] + s.subrange(p4, nn));
    crate::roundtrip::lemma_cancel(
        seq![','],
        s.subrange(p4, nn),
        spec_blocks_items(ap) + (seq![']'] + extra),
    );
    vstd::seq_lib::lemma_concat_associative(spec_blocks_items(ap), seq![']'], extra);
    lemma_carve(s, p4, nn, spec_blocks_items(ap) + seq![']'], extra);
}

/// Consumes the items and closing bracket of a non-empty block array,
/// appending the parsed blocks to `out`.
#[verifier::rlimit(100)]
fn parse_blocks_rest(s: &Vec<char>, pos: usize, out: &mut Vec<Block>) -> (r: Option<usize>)
    ensures
        r matches Some(p) ==> {
            &&& pos < p <= s@.len()
            &&& old(out)@.len() < final(out)@.len()
            &&& final(out)@.subrange(0, old(out)@.len() as int) == old(out)@
            &&& s@.subrange(pos as int, p as int) == spec_blocks_items(
                blocks_view(
                    final(out)@.subrange(old(out)@.len() as int, final(out)@.len() as int),
                ),
            ) + seq![']']
        },
        (exists|a: Seq<BlockView>|
            a.len() >= 1 && spec_lit_at(s@, pos as int, spec_blocks_items(a) + seq![']'])) ==> r
            is Some,
    decreases s@.len() - pos,
{
    let ghost has = exists|a: Seq<BlockView>|
        a.len() >= 1 && spec_lit_at(s@, pos as int, spec_blocks_items(a) + seq![']']);
    let ghost a0 = choose|a: Seq<BlockView>|
        a.len() >= 1 && spec_lit_at(s@, pos as int, spec_blocks_items(a) + seq![']']);
    let ghost nn = s@.len() as int;
    let ghost extra = s@.subrange(pos + spec_blocks_items(a0).len() + 1, nn);
    let ghost tail0 = crate::roundtrip::blocks_tail(a0.drop_first());
    let ghost rem2 = tail0 + (seq![']'] + extra);
    proof {
        if has {
            lemma_blocks_rest_head(s@, pos as int, a0, nn);
            assert(s@.subrange(pos as int, nn) == spec_block_json(a0.first()) + rem2);
        }
    }
    let (b, p2) = match parse_block(s, pos) {
        Some(x) => x,
        None => {
            proof {
                if has {
                    lemma_carve(s@, pos as int, nn, spec_block_json(a0.first()), rem2);
                    assert(false);
                }
            }
            return None;
        },
    };
    let ghost pre = out@;
    out.push(b);
    proof {
        if has {
            assert(s@.subrange(pos as int, nn) =~= spec_block_json(b@) + s@.subrange(
                p2 as int,
                nn,
            ));
            crate::roundtrip::lemma_block_unamb(b@, a0.first(), s@.subrange(p2 as int, nn), rem2);
        }
    }
    if let Some(p3) = expect_char(s, p2, ']') {
        proof {
            assert(out@ == pre.push(b));
            let added = out@.subrange(pre.len() as int, out@.len() as int);
            assert(added =~= seq![b]);
            assert(blocks_view(added) =~= seq![b@]);
            lemma_blocks_rest_single(s@, pos as int, p2 as int, p3 as int, b@);
            assert(out@.subrange(0, pre.len() as int) =~= pre);
        }
        return Some(p3);
    }
    let p4 = match expect_char(s, p2, ',') {
        Some(p) => p,
        None => {
            proof {
                if has {
                    assert(s@.subrange(p2 as int, nn)[0] == s@[p2 as int]);
                    if a0.len() == 1 {
                        assert(tail0 =~= Seq::<char>::empty());
                        assert(rem2 =~= seq![']'] + extra);
                        assert(false);
                    } else {
                        lemma_blocks_tail_cons(a0.drop_first());
                        assert(tail0[0] == ',');
                        assert(rem2[0] == ',');
                        assert(false);
                    }
                }
            }
            return None;
        },
    };
    let r2 = parse_blocks_rest(s, p4, out);
    match r2 {
        Some(p5) => {
            proof {
                let midlen = pre.len() as int + 1;
                let flen = out@.len() as int;
                assert(out@.subrange(0, midlen) == pre.push(b));
                let added = out@.subrange(pre.len() as int, flen);
                let addedp = out@.subrange(midlen, flen);
                assert(out@.subrange(0, midlen)[pre.len() as int] == out@[pre.len() as int]);
                assert(out@[pre.len() as int] == b);
                assert(added =~= seq![b] + addedp);
                assert(addedp.len() >= 1);
                let av = blocks_view(added);
                let apv = blocks_view(addedp);
                assert(av =~= seq![b@] + apv);
                lemma_blocks_rest_compose(
                    s@,
                    pos as int,
                    p2 as int,
                    p4 as int,
                    p5 as int,
                    b@,
                    apv,
                );
                assert(out@.subrange(0, pre.len() as int) =~= pre);
            }
            Some(p5)
        },
        None => {
            proof {
                if has {
                    assert(s@.subrange(p2 as int, nn)[0] == s@[p2 as int]);
                    if a0.len() == 1 {
                        assert(tail0 =~= Seq::<char>::empty());
                        assert(rem2 =~= seq![']'] + extra);
                        assert(false);
                    }
                    let ap = a0.drop_first();
                    assert(ap.len() >= 1);
                    lemma_blocks_rest_step(s@, p2 as int, p4 as int, nn, ap, extra);
                    assert(false);
                }
            }
            None
        },
    }
}

/// Consumes a canonical block array at `pos`.
fn parse_blocks(s: &Vec<char>, pos: usize) -> (r: Option<(Vec<Block>, usize)>)
    ensures
        r matches Some((v, p)) ==> pos < p <= s@.len() && s@.subrange(pos as int, p as int)
            == spec_blocks_json(blocks_view(v@)),
        (exists|a: Seq<BlockView>| spec_lit_at(s@, pos as int, spec_blocks_json(a))) ==> r
            is Some,
{
    let ghost has = exists|a: Seq<BlockView>| spec_lit_at(s@, pos as int, spec_blocks_json(a));
    let ghost a0 = choose|a: Seq<BlockView>| spec_lit_at(s@, pos as int, spec_blocks_json(a));
    let ghost nn = s@.len() as int;
    let ghost extra = s@.subrange(pos + spec_blocks_json(a0).len(), nn);
    let ghost rem1 = spec_blocks_items(a0) + (seq![']'] + extra);
    proof {
        if has {
            assert(s@.subrange(pos as int, nn) =~= spec_blocks_json(a0) + extra);
            vstd::seq_lib::lemma_concat_associative(
                seq!['['] + spec_blocks_items(a0),
                seq![']'],
                extra,
            );
            vstd::seq_lib::lemma_concat_associative(
                seq!['['],
                spec_blocks_items(a0),
                seq![']'] + extra,
            );
            assert(s@.subrange(pos as int, nn) == seq!['['] + rem1);
        }
    }
    let p1 = match expect_char(s, pos, '[') {
        Some(p) => p,
        None => {
            proof {
                if has {
                    lemma_carve(s@, pos as int, nn, seq!['['], rem1);
                    assert(s@.subrange(pos as int, pos as int + 1)[0] == s@[pos as int]);
                    assert(false);
                }
            }
            return None;
        },
    };
    proof {
        if has {
            lemma_lit_align(s@, pos as int, p1 as int, nn, seq!['['], rem1);
        }
    }
    if let Some(p2) = expect_char(s, p1, ']') {
        let v: Vec<Block> = Vec::new();
        proof {
            assert(blocks_view(v@) =~= Seq::<BlockView>::empty());
            assert(s@.subrange(pos as int, p2 as int) =~= s@.subrange(pos as int, p1 as int)
                + s@.subrange(p1 as int, p2 as int));
            assert(s@.subrange(pos as int, p2 as int) =~= spec_blocks_json(blocks_view(v@)));
        }
        return Some((v, p2));
    }
    let mut items_vec: Vec<Block> = Vec::new();
    match parse_blocks_rest(s, p1, &mut items_vec) {
        Some(p) => {
            proof {
                assert(items_vec@.subrange(0, items_vec@.len() as int) =~= items_vec@);
                assert(s@.subrange(pos as int, p as int) =~= s@.subrange(pos as int, p1 as int)
                    + s@.subrange(p1 as int, p as int));
                assert(s@.subrange(pos as int, p as int) =~= spec_blocks_json(
                    blocks_view(items_vec@),
                ));
            }
            Some((items_vec, p))
        },
        None => {
            proof {
                if has {
                    if a0.len() == 0 {
                        assert(rem1 =~= seq![']'] + extra);
                        assert(s@.subrange(p1 as int, nn)[0] == s@[p1 as int]);
                        assert(false);
                    }
                    vstd::seq_lib::lemma_concat_associative(
                        spec_blocks_items(a0),
                        seq![']'],
                        extra,
                    );
                    lemma_carve(s@, p1 as int, nn, spec_blocks_items(a0) + seq![']'], extra);
                    assert(false);
                }
            }
            None
        },
    }
}

impl Block {
    /// Reads a block back from its canonical JSON text: exactly the texts
    /// the encoder produces are accepted, so decoding an encoded block
    /// succeeds and returns a block whose canonical text is the input,
    /// stored hash included.
    pub fn from_json(s: &str) -> (r: Result<Block, JsonError>)
        ensures
            r matches Ok(b) ==> s@ == spec_block_json(b@),
            (exists|bv: BlockView| s@ == spec_block_json(bv)) ==> r is Ok,
    {
        let ghost has = exists|bv: BlockView| s@ == spec_block_json(bv);
        let ghost bv0 = choose|bv: BlockView| s@ == spec_block_json(bv);
        let v = str_to_chars(s);
        let ghost nn = v@.len() as int;
        proof {
            if has {
                assert(v@.subrange(0, nn) =~= v@);
                assert(spec_lit_at(v@, 0, spec_block_json(bv0)));
            }
        }
        match parse_block(&v, 0) {
            Some((b, p)) => {
                if p == v.len() {
                    proof {
                        assert(v@.subrange(0, v@.len() as int) =~= v@);
                    }
                    Ok(b)
                } else {
                    proof {
                        if has {
                            assert(v@.subrange(0, nn) =~= spec_block_json(b@) + v@.subrange(
                                p as int,
                                nn,
                            ));
                            assert(v@.subrange(0, nn) =~= spec_block_json(bv0)
                                + Seq::<char>::empty());
                            crate::roundtrip::lemma_block_unamb(
                                b@,
                                bv0,
                                v@.subrange(p as int, nn),
                                Seq::empty(),
                            );
                            assert(v@.subrange(p as int, nn).len() == 0);
                            assert(false);
                        }
                    }
                    Err(JsonError)
                }
            },
            None => {
                proof {
                    if has {
                        assert(false);
                    }
                }
                Err(JsonError)
            },
        }
    }
}

impl Blockchain {
    /// Reads a chain back from its canonical JSON text: exactly the texts
    /// the encoder produces are accepted, so decoding an encoded chain
    /// succeeds and returns a chain whose canonical text is the input.
    #[verifier::rlimit(100)]
    pub fn from_json(s: &str) -> (r: Result<Blockchain, JsonError>)
        ensures
            r matches Ok(c) ==> s@ == spec_chain_json(c@),
            (exists|cv: ChainView| s@ == spec_chain_json(cv)) ==> r is Ok,
    {
        let ghost has = exists|cv: ChainView| s@ == spec_chain_json(cv);
        let ghost c0 = choose|cv: ChainView| s@ == spec_chain_json(cv);
        let v = str_to_chars(s);
        let ghost nn = v@.len() as int;
        let ghost extra = Seq::<char>::empty();
        let ghost rem6 = seq!['}'] + extra;
        let ghost rem5 = spec_dec(c0.difficulty as nat) + rem6;
        let ghost rem4 = (",\"difficulty\":")@ + rem5;
        let ghost rem3 = spec_txs_json(c0.unconfirmed_transactions) + rem4;
        let ghost rem2 = (",\"unconfirmed_transactions\":")@ + rem3;
        let ghost rem1 = spec_blocks_json(c0.blocks) + rem2;
        proof {
            if has {
                crate::roundtrip::lemma_chain_json_reassoc(c0, extra);
                assert(v@.subrange(0, nn) =~= spec_chain_json(c0) + extra);
                assert(v@.subrange(0, nn) == ("{\"blocks\":")@ + rem1);
            }
        }
        let p1 = match expect_lit(&v, 0, "{\"blocks\":") {
            Some(p) => p,
            None => {
                proof {
                    if has {
                        lemma_carve(v@, 0, nn, ("{\"blocks\":")@, rem1);
                        assert(false);
                    }
                }
                return Err(JsonError);
            },
        };
        proof {
            if has {
                lemma_lit_align(v@, 0, p1 as int, nn, ("{\"blocks\":")@, rem1);
            }
        }
        let (blocks, p2) = match parse_blocks(&v, p1) {
            Some(x) => x,
            None => {
                proof {
                    if has {
                        lemma_carve(v@, p1 as int, nn, spec_blocks_json(c0.blocks), rem2);
                        assert(false);
                    }
                }
                return Err(JsonError);
            },
        };
        proof {
            if has {
                assert(v@.subrange(p1 as int, nn) =~= spec_blocks_json(blocks_view(blocks@))
                    + v@.subrange(p2 as int, nn));
                crate::roundtrip::lemma_blocks_json_unamb(
                    blocks_view(blocks@),
                    c0.blocks,
                    v@.subrange(p2 as int, nn),
                    rem2,
                );
            }
        }
        let p3 = match expect_lit(&v, p2, ",\"unconfirmed_transactions\":") {
            Some(p) => p,
            None => {
                proof {
                    if has {
                        lemma_carve(v@, p2 as int, nn, (",\"unconfirmed_transactions\":")@, rem3);
                        assert(false);
                    }
                }
                return Err(JsonError);
            },
        };
        proof {
            if has {
                lemma_lit_align(
                    v@,
                    p2 as int,
                    p3 as int,
                    nn,
                    (",\"unconfirmed_transactions\":")@,
                    rem3,
                );
            }
        }
        let (unconfirmed_transactions, p4) = match parse_txs(&v, p3) {
            Some(x) => x,
            None => {
                proof {
                    if has {
                        lemma_carve(
                            v@,
                            p3 as int,
                            nn,
                            spec_txs_json(c0.unconfirmed_transactions),
                            rem4,
                        );
                        assert(false);
                    }
                }
                return Err(JsonError);
            },
        };
        proof {
            if has {
                assert(v@.subrange(p3 as int, nn) =~= spec_txs_json(
                    txs_view(unconfirmed_transactions@),
                ) + v@.subrange(p4 as int, nn));
                crate::roundtrip::lemma_txs_json_unamb(
                    txs_view(unconfirmed_transactions@),
                    c0.unconfirmed_transactions,
                    v@.subrange(p4 as int, nn),
                    rem4,
                );
            }
        }
        let p5 = match expect_lit(&v, p4, ",\"difficulty\":") {
            Some(p) => p,
            None => {
                proof {
                    if has {
                        lemma_carve(v@, p4 as int, nn, (",\"difficulty\":")@, rem5);
                        assert(false);
                    }
                }
                return Err(JsonError);
            },
        };
        proof {
            if has {
                lemma_lit_align(v@, p4 as int, p5 as int, nn, (",\"difficulty\":")@, rem5);
                assert(rem6[0] == '}');
                assert(rem6.len() > 0);
                assert(!spec_is_digit('}'));
            }
        }
        let (difficulty, p6) = match parse_u64(&v, p5) {
            Some(x) => x,
            None => {
                proof {
                    if has {
                        lemma_dec_carve(v@, p5 as int, nn, c0.difficulty, rem6);
                        assert(false);
                    }
                }
                return Err(JsonError);
            },
        };
        proof {
            if has {
                lemma_dec_align(v@, p5 as int, p6 as int, nn, difficulty, c0.difficulty, rem6);
            }
        }
        let p7 = match expect_char(&v, p6, '}') {
            Some(p) => p,
            None => {
                proof {
                    if has {
                        assert(v@.subrange(p6 as int, nn)[0] == v@[p6 as int]);
                        assert((seq!['}'] + extra)[0] == '}');
                        assert(false);
                    }
                }
                return Err(JsonError);
            },
        };
        if p7 != v.len() {
            proof {
                if has {
                    lemma_lit_align(v@, p6 as int, p7 as int, nn, seq!['}'], extra);
                    assert(v@.subrange(p7 as int, nn).len() == 0);
                    assert(false);
                }
            }
            return Err(JsonError);
        }
        let c = Blockchain { blocks, unconfirmed_transactions, difficulty };
        proof {
            assert(v@.subrange(0, p7 as int) =~= v@.subrange(0, p1 as int) + v@.subrange(
                p1 as int,
                p2 as int,
            ) + v@.subrange(p2 as int, p3 as int) + v@.subrange(p3 as int, p4 as int)
                + v@.subrange(p4 as int, p5 as int) + v@.subrange(p5 as int, p6 as int)
                + v@.subrange(p6 as int, p7 as int));
            assert(v@.subrange(0, v@.len() as int) =~= v@);
        }
        Ok(c)
    }
}

} // verus!
