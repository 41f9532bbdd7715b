//! The canonical JSON text determines the value: two blocks, or two chains,
//! with the same text are equal in every field. Together with the encoder's
//! and decoder's contracts this gives the round trip: decoding an encoded
//! value can only return that value.

use vstd::prelude::*;
use crate::block::BlockView;
use crate::blockchain::ChainView;
use crate::codec::{
    spec_block_json, spec_blocks_items, spec_blocks_json, spec_bool_json, spec_chain_json,
    spec_digit_val, spec_esc_char, spec_escape, spec_fold_digits, spec_is_digit, spec_json_string,
    spec_tx_json, spec_txs_items, spec_txs_json,
};
use crate::text::{spec_dec, spec_dec_digit};
use crate::transaction::TxView;

verus! {

pub(crate) proof fn lemma_split(a1: Seq<char>, b1: Seq<char>, a2: Seq<char>, b2: Seq<char>)
    requires
        a1 + b1 == a2 + b2,
        a1.len() == a2.len(),
    ensures
        a1 == a2,
        b1 == b2,
{
    assert(a1 =~= a2) by {
        assert forall|i: int| 0 <= i < a1.len() implies a1[i] == a2[i] by {
            assert((a1 + b1)[i] == a1[i]);
            assert((a2 + b2)[i] == a2[i]);
        }
    }
    assert((a1 + b1).len() == a1.len() + b1.len());
    assert((a2 + b2).len() == a2.len() + b2.len());
    assert(b1.len() == b2.len());
    assert(b1 =~= b2) by {
        assert forall|i: int| 0 <= i < b1.len() implies b1[i] == b2[i] by {
            assert((a1 + b1)[a1.len() + i] == b1[i]);
            assert((a2 + b2)[a2.len() + i] == b2[i]);
        }
    }
}

pub(crate) proof fn lemma_cancel(p: Seq<char>, x: Seq<char>, y: Seq<char>)
    requires
        p + x == p + y,
    ensures
        x == y,
{
    lemma_split(p, x, p, y);
}

pub(crate) proof fn lemma_dec_digits(v: nat)
    ensures
        spec_dec(v).len() >= 1,
        forall|j: int| 0 <= j < spec_dec(v).len() ==> spec_is_digit(#[trigger] spec_dec(v)[j]),
    decreases v,
{
    if v < 10 {
        assert(spec_is_digit(spec_dec_digit(v as int)));
    } else {
        lemma_dec_digits(v / 10);
        assert forall|j: int| 0 <= j < spec_dec(v).len() implies spec_is_digit(
            #[trigger] spec_dec(v)[j],
        ) by {
            if j < spec_dec(v / 10).len() {
                assert(spec_dec(v)[j] == spec_dec(v / 10)[j]);
            } else {
                assert(spec_dec(v)[j] == spec_dec_digit((v % 10) as int));
                assert(spec_is_digit(spec_dec_digit((v % 10) as int)));
            }
        }
    }
}

pub(crate) proof fn lemma_fold_of_dec(v: nat)
    ensures
        spec_fold_digits(spec_dec(v)) == v,
    decreases v,
{
    if v < 10 {
        let s = spec_dec(v);
        assert(s.len() == 1);
        assert(s.drop_last() =~= Seq::<char>::empty());
        assert(spec_fold_digits(s.drop_last()) == 0);
        assert(s.last() == spec_dec_digit(v as int));
        assert(spec_digit_val(spec_dec_digit(v as int)) == v);
    } else {
        lemma_fold_of_dec(v / 10);
        let s = spec_dec(v);
        assert(s.drop_last() =~= spec_dec(v / 10));
        assert(s.last() == spec_dec_digit((v % 10) as int));
        assert(spec_digit_val(spec_dec_digit((v % 10) as int)) == v % 10);
        assert(spec_fold_digits(s) == spec_fold_digits(spec_dec(v / 10)) * 10 + v % 10);
    }
}

pub(crate) proof fn lemma_dec_unamb(v1: nat, v2: nat, r1: Seq<char>, r2: Seq<char>)
    requires
        spec_dec(v1) + r1 == spec_dec(v2) + r2,
        r1.len() > 0 ==> !spec_is_digit(r1[0]),
        r2.len() > 0 ==> !spec_is_digit(r2[0]),
    ensures
        v1 == v2,
        r1 == r2,
{
    lemma_dec_digits(v1);
    lemma_dec_digits(v2);
    let s1 = spec_dec(v1);
    let s2 = spec_dec(v2);
    if s1.len() < s2.len() {
        if r1.len() == 0 {
            assert((s1 + r1).len() < (s2 + r2).len());
        } else {
            assert((s1 + r1)[s1.len() as int] == r1[0]);
            assert((s2 + r2)[s1.len() as int] == s2[s1.len() as int]);
            assert(spec_is_digit(s2[s1.len() as int]));
        }
        assert(false);
    }
    if s2.len() < s1.len() {
        if r2.len() == 0 {
            assert((s2 + r2).len() < (s1 + r1).len());
        } else {
            assert((s2 + r2)[s2.len() as int] == r2[0]);
            assert((s1 + r1)[s2.len() as int] == s1[s2.len() as int]);
            assert(spec_is_digit(s1[s2.len() as int]));
        }
        assert(false);
    }
    lemma_split(s1, r1, s2, r2);
    lemma_fold_of_dec(v1);
    lemma_fold_of_dec(v2);
}

pub(crate) proof fn lemma_esc_unamb(s1: Seq<char>, s2: Seq<char>, r1: Seq<char>, r2: Seq<char>)
    requires
        spec_escape(s1) + seq!['"'] + r1 == spec_escape(s2) + seq!['"'] + r2,
    ensures
        s1 == s2,
        r1 == r2,
    decreases s1.len(),
{
    let u1 = spec_escape(s1) + seq!['"'] + r1;
    let u2 = spec_escape(s2) + seq!['"'] + r2;
    if s1.len() == 0 && s2.len() == 0 {
        assert(u1 =~= seq!['"'] + r1);
        assert(u2 =~= seq!['"'] + r2);
        lemma_cancel(seq!['"'], r1, r2);
    } else if s1.len() == 0 {
        assert(u1[0] == '"');
        let c2 = s2.first();
        assert(spec_escape(s2) == spec_esc_char(c2) + spec_escape(s2.drop_first()));
        assert(u2[0] == spec_esc_char(c2)[0]);
        if c2 == '"' || c2 == '\\' {
            assert(spec_esc_char(c2)[0] == '\\');
        } else {
            assert(spec_esc_char(c2)[0] == c2);
        }
        assert(false);
    } else if s2.len() == 0 {
        assert(u2[0] == '"');
        let c1 = s1.first();
        assert(spec_escape(s1) == spec_esc_char(c1) + spec_escape(s1.drop_first()));
        assert(u1[0] == spec_esc_char(c1)[0]);
        if c1 == '"' || c1 == '\\' {
            assert(spec_esc_char(c1)[0] == '\\');
        } else {
            assert(spec_esc_char(c1)[0] == c1);
        }
        assert(false);
    } else {
        let c1 = s1.first();
        let c2 = s2.first();
        assert(spec_escape(s1) == spec_esc_char(c1) + spec_escape(s1.drop_first()));
        assert(spec_escape(s2) == spec_esc_char(c2) + spec_escape(s2.drop_first()));
        let e1 = (c1 == '"' || c1 == '\\');
        let e2 = (c2 == '"' || c2 == '\\');
        if e1 && !e2 {
            assert(u1[0] == '\\');
            assert(u2[0] == c2);
            assert(false);
        } else if !e1 && e2 {
            assert(u1[0] == c1);
            assert(u2[0] == '\\');
            assert(false);
        } else if !e1 && !e2 {
            assert(u1 =~= seq![c1] + (spec_escape(s1.drop_first()) + seq!['"'] + r1));
            assert(u2 =~= seq![c2] + (spec_escape(s2.drop_first()) + seq!['"'] + r2));
            assert(u1[0] == c1 && u2[0] == c2);
            assert(c1 == c2);
            lemma_split(
                seq![c1],
                spec_escape(s1.drop_first()) + seq!['"'] + r1,
                seq![c2],
                spec_escape(s2.drop_first()) + seq!['"'] + r2,
            );
            lemma_esc_unamb(s1.drop_first(), s2.drop_first(), r1, r2);
            assert(s1 =~= s2) by {
                assert(s1.len() == s2.len());
                assert forall|i: int| 0 <= i < s1.len() implies s1[i] == s2[i] by {
                    if i == 0 {
                        assert(s1[0] == c1 && s2[0] == c2);
                    } else {
                        assert(s1[i] == s1.drop_first()[i - 1]);
                        assert(s2[i] == s2.drop_first()[i - 1]);
                    }
                }
            }
        } else {
            assert(u1 =~= seq!['\\', c1] + (spec_escape(s1.drop_first()) + seq!['"'] + r1));
            assert(u2 =~= seq!['\\', c2] + (spec_escape(s2.drop_first()) + seq!['"'] + r2));
            assert(u1[1] == c1 && u2[1] == c2);
            assert(c1 == c2);
            lemma_split(
                seq!['\\', c1],
                spec_escape(s1.drop_first()) + seq!['"'] + r1,
                seq!['\\', c2],
                spec_escape(s2.drop_first()) + seq!['"'] + r2,
            );
            lemma_esc_unamb(s1.drop_first(), s2.drop_first(), r1, r2);
            assert(s1 =~= s2) by {
                assert(s1.len() == s2.len());
                assert forall|i: int| 0 <= i < s1.len() implies s1[i] == s2[i] by {
                    if i == 0 {
                        assert(s1[0] == c1 && s2[0] == c2);
                    } else {
                        assert(s1[i] == s1.drop_first()[i - 1]);
                        assert(s2[i] == s2.drop_first()[i - 1]);
                    }
                }
            }
        }
    }
}

pub(crate) proof fn lemma_jstr_unamb(s1: Seq<char>, s2: Seq<char>, r1: Seq<char>, r2: Seq<char>)
    requires
        spec_json_string(s1) + r1 == spec_json_string(s2) + r2,
    ensures
        s1 == s2,
        r1 == r2,
{
    assert(spec_json_string(s1) + r1 =~= seq!['"'] + (spec_escape(s1) + seq!['"'] + r1));
    assert(spec_json_string(s2) + r2 =~= seq!['"'] + (spec_escape(s2) + seq!['"'] + r2));
    lemma_cancel(seq!['"'], spec_escape(s1) + seq!['"'] + r1, spec_escape(s2) + seq!['"'] + r2);
    lemma_esc_unamb(s1, s2, r1, r2);
}

pub(crate) proof fn lemma_bool_unamb(b1: bool, b2: bool, r1: Seq<char>, r2: Seq<char>)
    requires
        spec_bool_json(b1) + r1 == spec_bool_json(b2) + r2,
    ensures
        b1 == b2,
        r1 == r2,
{
    reveal_strlit("true");
    reveal_strlit("false");
    if b1 != b2 {
        assert((spec_bool_json(b1) + r1)[0] == spec_bool_json(b1)[0]);
        assert((spec_bool_json(b2) + r2)[0] == spec_bool_json(b2)[0]);
        assert(false);
    }
    lemma_cancel(spec_bool_json(b1), r1, r2);
}


#[verifier::rlimit(60)]
pub(crate) proof fn lemma_tx_unamb(t1: TxView, t2: TxView, r1: Seq<char>, r2: Seq<char>)
    requires
        spec_tx_json(t1) + r1 == spec_tx_json(t2) + r2,
    ensures
        t1 == t2,
        r1 == r2,
{
    let x1 = spec_json_string(t1.from_address) + ((",\"to_address\":")@ + (spec_json_string(
        t1.to_address,
    ) + ((",\"amount\":")@ + (spec_dec(t1.amount as nat) + ((",\"coinbase\":")@ + (spec_bool_json(
        t1.coinbase,
    ) + (seq!['}'] + r1)))))));
    let x2 = spec_json_string(t2.from_address) + ((",\"to_address\":")@ + (spec_json_string(
        t2.to_address,
    ) + ((",\"amount\":")@ + (spec_dec(t2.amount as nat) + ((",\"coinbase\":")@ + (spec_bool_json(
        t2.coinbase,
    ) + (seq!['}'] + r2)))))));
    assert(spec_tx_json(t1) + r1 =~= ("{\"from_address\":")@ + x1);
    assert(spec_tx_json(t2) + r2 =~= ("{\"from_address\":")@ + x2);
    lemma_cancel(("{\"from_address\":")@, x1, x2);
    lemma_jstr_unamb(
        t1.from_address,
        t2.from_address,
        (",\"to_address\":")@ + (spec_json_string(t1.to_address) + ((",\"amount\":")@ + (spec_dec(
            t1.amount as nat,
        ) + ((",\"coinbase\":")@ + (spec_bool_json(t1.coinbase) + (seq!['}'] + r1)))))),
        (",\"to_address\":")@ + (spec_json_string(t2.to_address) + ((",\"amount\":")@ + (spec_dec(
            t2.amount as nat,
        ) + ((",\"coinbase\":")@ + (spec_bool_json(t2.coinbase) + (seq!['}'] + r2)))))),
    );
    lemma_cancel(
        (",\"to_address\":")@,
        spec_json_string(t1.to_address) + ((",\"amount\":")@ + (spec_dec(t1.amount as nat) + ((
        ",\"coinbase\":")@ + (spec_bool_json(t1.coinbase) + (seq!['}'] + r1))))),
        spec_json_string(t2.to_address) + ((",\"amount\":")@ + (spec_dec(t2.amount as nat) + ((
        ",\"coinbase\":")@ + (spec_bool_json(t2.coinbase) + (seq!['}'] + r2))))),
    );
    lemma_jstr_unamb(
        t1.to_address,
        t2.to_address,
        (",\"amount\":")@ + (spec_dec(t1.amount as nat) + ((",\"coinbase\":")@ + (spec_bool_json(
            t1.coinbase,
        ) + (seq!['}'] + r1)))),
        (",\"amount\":")@ + (spec_dec(t2.amount as nat) + ((",\"coinbase\":")@ + (spec_bool_json(
            t2.coinbase,
        ) + (seq!['}'] + r2)))),
    );
    lemma_cancel(
        (",\"amount\":")@,
        spec_dec(t1.amount as nat) + ((",\"coinbase\":")@ + (spec_bool_json(t1.coinbase) + (
        seq!['}'] + r1))),
        spec_dec(t2.amount as nat) + ((",\"coinbase\":")@ + (spec_bool_json(t2.coinbase) + (
        seq!['}'] + r2))),
    );
    reveal_strlit(",\"coinbase\":");
    assert(((",\"coinbase\":")@ + (spec_bool_json(t1.coinbase) + (seq!['}'] + r1)))[0] == ',');
    assert(((",\"coinbase\":")@ + (spec_bool_json(t2.coinbase) + (seq!['}'] + r2)))[0] == ',');
    assert(!spec_is_digit(','));
    lemma_dec_unamb(
        t1.amount as nat,
        t2.amount as nat,
        (",\"coinbase\":")@ + (spec_bool_json(t1.coinbase) + (seq!['}'] + r1)),
        (",\"coinbase\":")@ + (spec_bool_json(t2.coinbase) + (seq!['}'] + r2)),
    );
    lemma_cancel(
        (",\"coinbase\":")@,
        spec_bool_json(t1.coinbase) + (seq!['}'] + r1),
        spec_bool_json(t2.coinbase) + (seq!['}'] + r2),
    );
    lemma_bool_unamb(t1.coinbase, t2.coinbase, seq!['}'] + r1, seq!['}'] + r2);
    lemma_cancel(seq!['}'], r1, r2);
    assert(t1 =~= t2);
}

/// The items of a transaction array read front first: the first item, then
/// each further item behind a comma.
pub(crate) open spec fn txs_tail(txs: Seq<TxView>) -> Seq<char>
    decreases txs.len(),
{
    if txs.len() == 0 {
        Seq::empty()
    } else {
        seq![','] + spec_tx_json(txs.first()) + txs_tail(txs.drop_first())
    }
}

pub(crate) proof fn lemma_txs_tail_snoc(s: Seq<TxView>, x: TxView)
    ensures
        txs_tail(s.push(x)) == txs_tail(s) + seq![','] + spec_tx_json(x),
    decreases s.len(),
{
    if s.len() == 0 {
        assert(s.push(x).first() == x);
        assert(s.push(x).drop_first() =~= Seq::<TxView>::empty());
        assert(txs_tail(s.push(x).drop_first()) =~= Seq::<char>::empty());
        assert(txs_tail(s) =~= Seq::<char>::empty());
        assert(txs_tail(s.push(x)) == seq![','] + spec_tx_json(s.push(x).first()) + txs_tail(
            s.push(x).drop_first(),
        ));
        assert(txs_tail(s.push(x)) =~= txs_tail(s) + seq![','] + spec_tx_json(x));
    } else {
        assert(s.push(x).first() == s.first());
        assert(s.push(x).drop_first() =~= s.drop_first().push(x));
        lemma_txs_tail_snoc(s.drop_first(), x);
        assert(txs_tail(s.push(x)) == seq![','] + spec_tx_json(s.push(x).first()) + txs_tail(
            s.push(x).drop_first(),
        ));
        assert(txs_tail(s.push(x)) =~= txs_tail(s) + seq![','] + spec_tx_json(x));
    }
}

pub(crate) proof fn lemma_txs_items_front(txs: Seq<TxView>)
    requires
        txs.len() >= 1,
    ensures
        spec_txs_items(txs) == spec_tx_json(txs.first()) + txs_tail(txs.drop_first()),
    decreases txs.len(),
{
    if txs.len() == 1 {
        assert(txs.first() == txs[0]);
        assert(txs.drop_first() =~= Seq::<TxView>::empty());
        assert(spec_txs_items(txs) =~= spec_tx_json(txs.first()) + txs_tail(txs.drop_first()));
    } else {
        let dl = txs.drop_last();
        lemma_txs_items_front(dl);
        assert(dl.first() == txs.first());
        assert(txs.drop_first() =~= dl.drop_first().push(txs.last()));
        lemma_txs_tail_snoc(dl.drop_first(), txs.last());
        assert(spec_txs_items(txs) == spec_txs_items(dl) + seq![','] + spec_tx_json(txs.last()));
        assert(spec_txs_items(txs) =~= spec_tx_json(txs.first()) + txs_tail(txs.drop_first()));
    }
}

pub(crate) proof fn lemma_tx_json_first_char(t: TxView)
    ensures
        spec_tx_json(t).len() >= 1,
        spec_tx_json(t)[0] == '{',
{
    reveal_strlit("{\"from_address\":");
    assert(spec_tx_json(t) =~= ("{\"from_address\":")@ + (spec_json_string(t.from_address) + ((
    ",\"to_address\":")@ + (spec_json_string(t.to_address) + ((",\"amount\":")@ + (spec_dec(
        t.amount as nat,
    ) + ((",\"coinbase\":")@ + (spec_bool_json(t.coinbase) + seq!['}']))))))));
    assert(spec_tx_json(t)[0] == ("{\"from_address\":")@[0]);
}

#[verifier::rlimit(100)]
pub(crate) proof fn lemma_txs_tail_unamb(a1: Seq<TxView>, a2: Seq<TxView>, r1: Seq<char>, r2: Seq<char>)
    requires
        txs_tail(a1) + r1 == txs_tail(a2) + r2,
        r1.len() > 0 && r1[0] == ']',
        r2.len() > 0 && r2[0] == ']',
    ensures
        a1 == a2,
        r1 == r2,
    decreases a1.len(),
{
    if a1.len() == 0 && a2.len() == 0 {
        assert(txs_tail(a1) + r1 =~= r1);
        assert(txs_tail(a2) + r2 =~= r2);
        assert(a1 =~= a2);
    } else if a1.len() == 0 {
        assert((txs_tail(a1) + r1)[0] == r1[0]);
        assert((txs_tail(a2) + r2)[0] == ',');
        assert(false);
    } else if a2.len() == 0 {
        assert((txs_tail(a2) + r2)[0] == r2[0]);
        assert((txs_tail(a1) + r1)[0] == ',');
        assert(false);
    } else {
        assert(txs_tail(a1) + r1 =~= seq![','] + (spec_tx_json(a1.first()) + (txs_tail(
            a1.drop_first(),
        ) + r1)));
        assert(txs_tail(a2) + r2 =~= seq![','] + (spec_tx_json(a2.first()) + (txs_tail(
            a2.drop_first(),
        ) + r2)));
        lemma_cancel(
            seq![','],
            spec_tx_json(a1.first()) + (txs_tail(a1.drop_first()) + r1),
            spec_tx_json(a2.first()) + (txs_tail(a2.drop_first()) + r2),
        );
        lemma_tx_unamb(
            a1.first(),
            a2.first(),
            txs_tail(a1.drop_first()) + r1,
            txs_tail(a2.drop_first()) + r2,
        );
        lemma_txs_tail_unamb(a1.drop_first(), a2.drop_first(), r1, r2);
        assert(a1 =~= a2) by {
            assert(a1.len() == a2.len());
            assert forall|i: int| 0 <= i < a1.len() implies a1[i] == a2[i] by {
                if i == 0 {
                    assert(a1[0] == a1.first() && a2[0] == a2.first());
                } else {
                    assert(a1[i] == a1.drop_first()[i - 1]);
                    assert(a2[i] == a2.drop_first()[i - 1]);
                }
            }
        }
    }
}

pub(crate) proof fn lemma_txs_json_unamb(a1: Seq<TxView>, a2: Seq<TxView>, r1: Seq<char>, r2: Seq<char>)
    requires
        spec_txs_json(a1) + r1 == spec_txs_json(a2) + r2,
    ensures
        a1 == a2,
        r1 == r2,
{
    assert(spec_txs_json(a1) + r1 =~= seq!['['] + (spec_txs_items(a1) + (seq![']'] + r1)));
    assert(spec_txs_json(a2) + r2 =~= seq!['['] + (spec_txs_items(a2) + (seq![']'] + r2)));
    lemma_cancel(
        seq!['['],
        spec_txs_items(a1) + (seq![']'] + r1),
        spec_txs_items(a2) + (seq![']'] + r2),
    );
    if a1.len() == 0 && a2.len() == 0 {
        assert(spec_txs_items(a1) + (seq![']'] + r1) =~= seq![']'] + r1);
        assert(spec_txs_items(a2) + (seq![']'] + r2) =~= seq![']'] + r2);
        lemma_cancel(seq![']'], r1, r2);
        assert(a1 =~= a2);
    } else if a1.len() == 0 {
        assert((spec_txs_items(a1) + (seq![']'] + r1))[0] == ']');
        lemma_txs_items_front(a2);
        lemma_tx_json_first_char(a2.first());
        assert(spec_txs_items(a2)[0] == '{');
        assert((spec_txs_items(a2) + (seq![']'] + r2))[0] == '{');
        assert(false);
    } else if a2.len() == 0 {
        assert((spec_txs_items(a2) + (seq![']'] + r2))[0] == ']');
        lemma_txs_items_front(a1);
        lemma_tx_json_first_char(a1.first());
        assert(spec_txs_items(a1)[0] == '{');
        assert((spec_txs_items(a1) + (seq![']'] + r1))[0] == '{');
        assert(false);
    } else {
        lemma_txs_items_front(a1);
        lemma_txs_items_front(a2);
        assert(spec_txs_items(a1) + (seq![']'] + r1) =~= spec_tx_json(a1.first()) + (txs_tail(
            a1.drop_first(),
        ) + (seq![']'] + r1)));
        assert(spec_txs_items(a2) + (seq![']'] + r2) =~= spec_tx_json(a2.first()) + (txs_tail(
            a2.drop_first(),
        ) + (seq![']'] + r2)));
        lemma_tx_unamb(
            a1.first(),
            a2.first(),
            txs_tail(a1.drop_first()) + (seq![']'] + r1),
            txs_tail(a2.drop_first()) + (seq![']'] + r2),
        );
        lemma_txs_tail_unamb(a1.drop_first(), a2.drop_first(), seq![']'] + r1, seq![']'] + r2);
        lemma_cancel(seq![']'], r1, r2);
        assert(a1 =~= a2) by {
            assert(a1.len() == a2.len());
            assert forall|i: int| 0 <= i < a1.len() implies a1[i] == a2[i] by {
                if i == 0 {
                    assert(a1[0] == a1.first() && a2[0] == a2.first());
                } else {
                    assert(a1[i] == a1.drop_first()[i - 1]);
                    assert(a2[i] == a2.drop_first()[i - 1]);
                }
            }
        }
    }
}


#[verifier::rlimit(100)]
pub(crate) proof fn lemma_block_json_reassoc(b: BlockView, r: Seq<char>)
    ensures
        spec_block_json(b) + r == ("{\"index\":")@ + (spec_dec(b.index as nat) + ((",\"timestamp\":")@ + (spec_dec(b.timestamp as nat) + ((",\"transactions\":")@ + (spec_txs_json(b.transactions) + ((",\"previous_hash\":")@ + (spec_json_string(b.previous_hash) + ((",\"hash\":")@ + (spec_json_string(b.hash) + ((",\"nonce\":")@ + (spec_dec(b.nonce as nat) + (seq!['}'] + r)))))))))))),
{
    let p1 = ("{\"index\":")@;
    let p2 = p1 + spec_dec(b.index as nat);
    let p3 = p2 + (",\"timestamp\":")@;
    let p4 = p3 + spec_dec(b.timestamp as nat);
    let p5 = p4 + (",\"transactions\":")@;
    let p6 = p5 + spec_txs_json(b.transactions);
    let p7 = p6 + (",\"previous_hash\":")@;
    let p8 = p7 + spec_json_string(b.previous_hash);
    let p9 = p8 + (",\"hash\":")@;
    let p10 = p9 + spec_json_string(b.hash);
    let p11 = p10 + (",\"nonce\":")@;
    let p12 = p11 + spec_dec(b.nonce as nat);
    let t14 = r;
    let t13 = seq!['}'] + t14;
    let t12 = spec_dec(b.nonce as nat) + t13;
    let t11 = (",\"nonce\":")@ + t12;
    let t10 = spec_json_string(b.hash) + t11;
    let t9 = (",\"hash\":")@ + t10;
    let t8 = spec_json_string(b.previous_hash) + t9;
    let t7 = (",\"previous_hash\":")@ + t8;
    let t6 = spec_txs_json(b.transactions) + t7;
    let t5 = (",\"transactions\":")@ + t6;
    let t4 = spec_dec(b.timestamp as nat) + t5;
    let t3 = (",\"timestamp\":")@ + t4;
    let t2 = spec_dec(b.index as nat) + t3;
    assert(spec_block_json(b) == p12 + seq!['}']);
    vstd::seq_lib::lemma_concat_associative(p12, seq!['}'], t14);
    vstd::seq_lib::lemma_concat_associative(p11, spec_dec(b.nonce as nat), t13);
    vstd::seq_lib::lemma_concat_associative(p10, (",\"nonce\":")@, t12);
    vstd::seq_lib::lemma_concat_associative(p9, spec_json_string(b.hash), t11);
    vstd::seq_lib::lemma_concat_associative(p8, (",\"hash\":")@, t10);
    vstd::seq_lib::lemma_concat_associative(p7, spec_json_string(b.previous_hash), t9);
    vstd::seq_lib::lemma_concat_associative(p6, (",\"previous_hash\":")@, t8);
    vstd::seq_lib::lemma_concat_associative(p5, spec_txs_json(b.transactions), t7);
    vstd::seq_lib::lemma_concat_associative(p4, (",\"transactions\":")@, t6);
    vstd::seq_lib::lemma_concat_associative(p3, spec_dec(b.timestamp as nat), t5);
    vstd::seq_lib::lemma_concat_associative(p2, (",\"timestamp\":")@, t4);
    vstd::seq_lib::lemma_concat_associative(p1, spec_dec(b.index as nat), t3);
    assert(spec_block_json(b) + r == ("{\"index\":")@ + t2);
}

#[verifier::rlimit(100)]
pub(crate) proof fn lemma_block_unamb(b1: BlockView, b2: BlockView, r1: Seq<char>, r2: Seq<char>)
    requires
        spec_block_json(b1) + r1 == spec_block_json(b2) + r2,
    ensures
        b1 == b2,
        r1 == r2,
{
    let y1 = spec_json_string(b1.previous_hash) + ((",\"hash\":")@ + (spec_json_string(b1.hash) + ((
    ",\"nonce\":")@ + (spec_dec(b1.nonce as nat) + (seq!['}'] + r1)))));
    let y2 = spec_json_string(b2.previous_hash) + ((",\"hash\":")@ + (spec_json_string(b2.hash) + ((
    ",\"nonce\":")@ + (spec_dec(b2.nonce as nat) + (seq!['}'] + r2)))));
    let x1 = spec_dec(b1.index as nat) + ((",\"timestamp\":")@ + (spec_dec(b1.timestamp as nat) + ((
    ",\"transactions\":")@ + (spec_txs_json(b1.transactions) + ((",\"previous_hash\":")@ + y1)))));
    let x2 = spec_dec(b2.index as nat) + ((",\"timestamp\":")@ + (spec_dec(b2.timestamp as nat) + ((
    ",\"transactions\":")@ + (spec_txs_json(b2.transactions) + ((",\"previous_hash\":")@ + y2)))));
    lemma_block_json_reassoc(b1, r1);
    lemma_block_json_reassoc(b2, r2);
    lemma_cancel(("{\"index\":")@, x1, x2);
    reveal_strlit(",\"timestamp\":");
    assert(x1[spec_dec(b1.index as nat).len() as int] == ',') by {
        lemma_dec_digits(b1.index as nat);
    }
    assert(((",\"timestamp\":")@ + (spec_dec(b1.timestamp as nat) + ((",\"transactions\":")@ + (
    spec_txs_json(b1.transactions) + ((",\"previous_hash\":")@ + y1)))))[0] == ',');
    assert(((",\"timestamp\":")@ + (spec_dec(b2.timestamp as nat) + ((",\"transactions\":")@ + (
    spec_txs_json(b2.transactions) + ((",\"previous_hash\":")@ + y2)))))[0] == ',');
    assert(!spec_is_digit(','));
    lemma_dec_unamb(
        b1.index as nat,
        b2.index as nat,
        (",\"timestamp\":")@ + (spec_dec(b1.timestamp as nat) + ((",\"transactions\":")@ + (
        spec_txs_json(b1.transactions) + ((",\"previous_hash\":")@ + y1)))),
        (",\"timestamp\":")@ + (spec_dec(b2.timestamp as nat) + ((",\"transactions\":")@ + (
        spec_txs_json(b2.transactions) + ((",\"previous_hash\":")@ + y2)))),
    );
    lemma_cancel(
        (",\"timestamp\":")@,
        spec_dec(b1.timestamp as nat) + ((",\"transactions\":")@ + (spec_txs_json(b1.transactions)
            + ((",\"previous_hash\":")@ + y1))),
        spec_dec(b2.timestamp as nat) + ((",\"transactions\":")@ + (spec_txs_json(b2.transactions)
            + ((",\"previous_hash\":")@ + y2))),
    );
    reveal_strlit(",\"transactions\":");
    assert(((",\"transactions\":")@ + (spec_txs_json(b1.transactions) + ((",\"previous_hash\":")@
        + y1)))[0] == ',');
    assert(((",\"transactions\":")@ + (spec_txs_json(b2.transactions) + ((",\"previous_hash\":")@
        + y2)))[0] == ',');
    lemma_dec_unamb(
        b1.timestamp as nat,
        b2.timestamp as nat,
        (",\"transactions\":")@ + (spec_txs_json(b1.transactions) + ((",\"previous_hash\":")@
            + y1)),
        (",\"transactions\":")@ + (spec_txs_json(b2.transactions) + ((",\"previous_hash\":")@
            + y2)),
    );
    lemma_cancel(
        (",\"transactions\":")@,
        spec_txs_json(b1.transactions) + ((",\"previous_hash\":")@ + y1),
        spec_txs_json(b2.transactions) + ((",\"previous_hash\":")@ + y2),
    );
    lemma_txs_json_unamb(
        b1.transactions,
        b2.transactions,
        (",\"previous_hash\":")@ + y1,
        (",\"previous_hash\":")@ + y2,
    );
    lemma_cancel((",\"previous_hash\":")@, y1, y2);
    lemma_block_back_unamb(b1, b2, r1, r2);
    assert(b1 =~= b2);
}

#[verifier::rlimit(100)]
pub(crate) proof fn lemma_block_back_unamb(b1: BlockView, b2: BlockView, r1: Seq<char>, r2: Seq<char>)
    requires
        spec_json_string(b1.previous_hash) + ((",\"hash\":")@ + (spec_json_string(b1.hash) + ((
        ",\"nonce\":")@ + (spec_dec(b1.nonce as nat) + (seq!['}'] + r1))))) == spec_json_string(
            b2.previous_hash,
        ) + ((",\"hash\":")@ + (spec_json_string(b2.hash) + ((",\"nonce\":")@ + (spec_dec(
            b2.nonce as nat,
        ) + (seq!['}'] + r2))))),
    ensures
        b1.previous_hash == b2.previous_hash,
        b1.hash == b2.hash,
        b1.nonce == b2.nonce,
        r1 == r2,
{
    lemma_jstr_unamb(
        b1.previous_hash,
        b2.previous_hash,
        (",\"hash\":")@ + (spec_json_string(b1.hash) + ((",\"nonce\":")@ + (spec_dec(
            b1.nonce as nat,
        ) + (seq!['}'] + r1)))),
        (",\"hash\":")@ + (spec_json_string(b2.hash) + ((",\"nonce\":")@ + (spec_dec(
            b2.nonce as nat,
        ) + (seq!['}'] + r2)))),
    );
    lemma_cancel(
        (",\"hash\":")@,
        spec_json_string(b1.hash) + ((",\"nonce\":")@ + (spec_dec(b1.nonce as nat) + (seq!['}']
            + r1))),
        spec_json_string(b2.hash) + ((",\"nonce\":")@ + (spec_dec(b2.nonce as nat) + (seq!['}']
            + r2))),
    );
    lemma_jstr_unamb(
        b1.hash,
        b2.hash,
        (",\"nonce\":")@ + (spec_dec(b1.nonce as nat) + (seq!['}'] + r1)),
        (",\"nonce\":")@ + (spec_dec(b2.nonce as nat) + (seq!['}'] + r2)),
    );
    lemma_cancel(
        (",\"nonce\":")@,
        spec_dec(b1.nonce as nat) + (seq!['}'] + r1),
        spec_dec(b2.nonce as nat) + (seq!['}'] + r2),
    );
    assert((seq!['}'] + r1)[0] == '}');
    assert((seq!['}'] + r2)[0] == '}');
    assert(!spec_is_digit('}'));
    lemma_dec_unamb(b1.nonce as nat, b2.nonce as nat, seq!['}'] + r1, seq!['}'] + r2);
    lemma_cancel(seq!['}'], r1, r2);
}

/// The items of a block array read front first.
pub(crate) open spec fn blocks_tail(blocks: Seq<BlockView>) -> Seq<char>
    decreases blocks.len(),
{
    if blocks.len() == 0 {
        Seq::empty()
    } else {
        seq![','] + spec_block_json(blocks.first()) + blocks_tail(blocks.drop_first())
    }
}

pub(crate) proof fn lemma_blocks_tail_snoc(s: Seq<BlockView>, x: BlockView)
    ensures
        blocks_tail(s.push(x)) == blocks_tail(s) + seq![','] + spec_block_json(x),
    decreases s.len(),
{
    if s.len() == 0 {
        assert(s.push(x).first() == x);
        assert(s.push(x).drop_first() =~= Seq::<BlockView>::empty());
        assert(blocks_tail(s.push(x).drop_first()) =~= Seq::<char>::empty());
        assert(blocks_tail(s) =~= Seq::<char>::empty());
        assert(blocks_tail(s.push(x)) == seq![','] + spec_block_json(s.push(x).first())
            + blocks_tail(s.push(x).drop_first()));
        assert(blocks_tail(s.push(x)) =~= blocks_tail(s) + seq![','] + spec_block_json(x));
    } else {
        assert(s.push(x).first() == s.first());
        assert(s.push(x).drop_first() =~= s.drop_first().push(x));
        lemma_blocks_tail_snoc(s.drop_first(), x);
        assert(blocks_tail(s.push(x)) == seq![','] + spec_block_json(s.push(x).first())
            + blocks_tail(s.push(x).drop_first()));
        assert(blocks_tail(s.push(x)) =~= blocks_tail(s) + seq![','] + spec_block_json(x));
    }
}

pub(crate) proof fn lemma_blocks_items_front(blocks: Seq<BlockView>)
    requires
        blocks.len() >= 1,
    ensures
        spec_blocks_items(blocks) == spec_block_json(blocks.first()) + blocks_tail(
            blocks.drop_first(),
        ),
    decreases blocks.len(),
{
    if blocks.len() == 1 {
        assert(blocks.first() == blocks[0]);
        assert(blocks.drop_first() =~= Seq::<BlockView>::empty());
        assert(spec_blocks_items(blocks) =~= spec_block_json(blocks.first()) + blocks_tail(
            blocks.drop_first(),
        ));
    } else {
        let dl = blocks.drop_last();
        lemma_blocks_items_front(dl);
        assert(dl.first() == blocks.first());
        assert(blocks.drop_first() =~= dl.drop_first().push(blocks.last()));
        lemma_blocks_tail_snoc(dl.drop_first(), blocks.last());
        assert(spec_blocks_items(blocks) == spec_blocks_items(dl) + seq![','] + spec_block_json(
            blocks.last(),
        ));
        assert(spec_blocks_items(blocks) =~= spec_block_json(blocks.first()) + blocks_tail(
            blocks.drop_first(),
        ));
    }
}

pub(crate) proof fn lemma_block_json_first_char(b: BlockView)
    ensures
        spec_block_json(b).len() >= 1,
        spec_block_json(b)[0] == '{',
{
    reveal_strlit("{\"index\":");
    assert(("{\"index\":")@.len() == 9);
    assert(spec_block_json(b)[0] == ("{\"index\":")@[0]);
}

#[verifier::rlimit(100)]
pub(crate) proof fn lemma_blocks_tail_unamb(
    a1: Seq<BlockView>,
    a2: Seq<BlockView>,
    r1: Seq<char>,
    r2: Seq<char>,
)
    requires
        blocks_tail(a1) + r1 == blocks_tail(a2) + r2,
        r1.len() > 0 && r1[0] == ']',
        r2.len() > 0 && r2[0] == ']',
    ensures
        a1 == a2,
        r1 == r2,
    decreases a1.len(),
{
    if a1.len() == 0 && a2.len() == 0 {
        assert(blocks_tail(a1) + r1 =~= r1);
        assert(blocks_tail(a2) + r2 =~= r2);
        assert(a1 =~= a2);
    } else if a1.len() == 0 {
        assert((blocks_tail(a1) + r1)[0] == r1[0]);
        assert((blocks_tail(a2) + r2)[0] == ',');
        assert(false);
    } else if a2.len() == 0 {
        assert((blocks_tail(a2) + r2)[0] == r2[0]);
        assert((blocks_tail(a1) + r1)[0] == ',');
        assert(false);
    } else {
        assert(blocks_tail(a1) + r1 =~= seq![','] + (spec_block_json(a1.first()) + (blocks_tail(
            a1.drop_first(),
        ) + r1)));
        assert(blocks_tail(a2) + r2 =~= seq![','] + (spec_block_json(a2.first()) + (blocks_tail(
            a2.drop_first(),
        ) + r2)));
        lemma_cancel(
            seq![','],
            spec_block_json(a1.first()) + (blocks_tail(a1.drop_first()) + r1),
            spec_block_json(a2.first()) + (blocks_tail(a2.drop_first()) + r2),
        );
        lemma_block_unamb(
            a1.first(),
            a2.first(),
            blocks_tail(a1.drop_first()) + r1,
            blocks_tail(a2.drop_first()) + r2,
        );
        lemma_blocks_tail_unamb(a1.drop_first(), a2.drop_first(), r1, r2);
        assert(a1 =~= a2) by {
            assert(a1.len() == a2.len());
            assert forall|i: int| 0 <= i < a1.len() implies a1[i] == a2[i] by {
                if i == 0 {
                    assert(a1[0] == a1.first() && a2[0] == a2.first());
                } else {
                    assert(a1[i] == a1.drop_first()[i - 1]);
                    assert(a2[i] == a2.drop_first()[i - 1]);
                }
            }
        }
    }
}

#[verifier::rlimit(100)]
pub(crate) proof fn lemma_blocks_json_unamb(
    a1: Seq<BlockView>,
    a2: Seq<BlockView>,
    r1: Seq<char>,
    r2: Seq<char>,
)
    requires
        spec_blocks_json(a1) + r1 == spec_blocks_json(a2) + r2,
    ensures
        a1 == a2,
        r1 == r2,
{
    assert(spec_blocks_json(a1) + r1 =~= seq!['['] + (spec_blocks_items(a1) + (seq![']'] + r1)));
    assert(spec_blocks_json(a2) + r2 =~= seq!['['] + (spec_blocks_items(a2) + (seq![']'] + r2)));
    lemma_cancel(
        seq!['['],
        spec_blocks_items(a1) + (seq![']'] + r1),
        spec_blocks_items(a2) + (seq![']'] + r2),
    );
    if a1.len() == 0 && a2.len() == 0 {
        assert(spec_blocks_items(a1) + (seq![']'] + r1) =~= seq![']'] + r1);
        assert(spec_blocks_items(a2) + (seq![']'] + r2) =~= seq![']'] + r2);
        lemma_cancel(seq![']'], r1, r2);
        assert(a1 =~= a2);
    } else if a1.len() == 0 {
        assert((spec_blocks_items(a1) + (seq![']'] + r1))[0] == ']');
        lemma_blocks_items_front(a2);
        lemma_block_json_first_char(a2.first());
        assert(spec_blocks_items(a2)[0] == '{');
        assert((spec_blocks_items(a2) + (seq![']'] + r2))[0] == '{');
        assert(false);
    } else if a2.len() == 0 {
        assert((spec_blocks_items(a2) + (seq![']'] + r2))[0] == ']');
        lemma_blocks_items_front(a1);
        lemma_block_json_first_char(a1.first());
        assert(spec_blocks_items(a1)[0] == '{');
        assert((spec_blocks_items(a1) + (seq![']'] + r1))[0] == '{');
        assert(false);
    } else {
        lemma_blocks_items_front(a1);
        lemma_blocks_items_front(a2);
        assert(spec_blocks_items(a1) + (seq![']'] + r1) =~= spec_block_json(a1.first()) + (
        blocks_tail(a1.drop_first()) + (seq![']'] + r1)));
        assert(spec_blocks_items(a2) + (seq![']'] + r2) =~= spec_block_json(a2.first()) + (
        blocks_tail(a2.drop_first()) + (seq![']'] + r2)));
        lemma_block_unamb(
            a1.first(),
            a2.first(),
            blocks_tail(a1.drop_first()) + (seq![']'] + r1),
            blocks_tail(a2.drop_first()) + (seq![']'] + r2),
        );
        lemma_blocks_tail_unamb(a1.drop_first(), a2.drop_first(), seq![']'] + r1, seq![']'] + r2);
        lemma_cancel(seq![']'], r1, r2);
        assert(a1 =~= a2) by {
            assert(a1.len() == a2.len());
            assert forall|i: int| 0 <= i < a1.len() implies a1[i] == a2[i] by {
                if i == 0 {
                    assert(a1[0] == a1.first() && a2[0] == a2.first());
                } else {
                    assert(a1[i] == a1.drop_first()[i - 1]);
                    assert(a2[i] == a2.drop_first()[i - 1]);
                }
            }
        }
    }
}

/// A block's canonical text determines the block: two blocks with the same
/// JSON text are equal in every field. With `to_json` exact and `from_json`
/// strict, decoding an encoded block can only return the original, so a
/// serialize-then-deserialize round trip preserves every field.
pub proof fn lemma_block_json_injective(b1: BlockView, b2: BlockView)
    requires
        spec_block_json(b1) == spec_block_json(b2),
    ensures
        b1 == b2,
{
    assert(spec_block_json(b1) + Seq::<char>::empty() =~= spec_block_json(b1));
    assert(spec_block_json(b2) + Seq::<char>::empty() =~= spec_block_json(b2));
    lemma_block_unamb(b1, b2, Seq::empty(), Seq::empty());
}

/// The chain's canonical text determines the chain: blocks, mempool and
/// difficulty alike. With `to_json` exact and `from_json` strict, decoding
/// an encoded chain can only return the original.
#[verifier::rlimit(60)]
pub proof fn lemma_chain_json_injective(c1: ChainView, c2: ChainView)
    requires
        spec_chain_json(c1) == spec_chain_json(c2),
    ensures
        c1 == c2,
{
    let x1 = spec_blocks_json(c1.blocks) + ((",\"unconfirmed_transactions\":")@ + (spec_txs_json(
        c1.unconfirmed_transactions,
    ) + ((",\"difficulty\":")@ + (spec_dec(c1.difficulty as nat) + seq!['}']))));
    let x2 = spec_blocks_json(c2.blocks) + ((",\"unconfirmed_transactions\":")@ + (spec_txs_json(
        c2.unconfirmed_transactions,
    ) + ((",\"difficulty\":")@ + (spec_dec(c2.difficulty as nat) + seq!['}']))));
    assert(spec_chain_json(c1) =~= ("{\"blocks\":")@ + x1);
    assert(spec_chain_json(c2) =~= ("{\"blocks\":")@ + x2);
    lemma_cancel(("{\"blocks\":")@, x1, x2);
    lemma_blocks_json_unamb(
        c1.blocks,
        c2.blocks,
        (",\"unconfirmed_transactions\":")@ + (spec_txs_json(c1.unconfirmed_transactions) + ((
        ",\"difficulty\":")@ + (spec_dec(c1.difficulty as nat) + seq!['}']))),
        (",\"unconfirmed_transactions\":")@ + (spec_txs_json(c2.unconfirmed_transactions) + ((
        ",\"difficulty\":")@ + (spec_dec(c2.difficulty as nat) + seq!['}']))),
    );
    lemma_cancel(
        (",\"unconfirmed_transactions\":")@,
        spec_txs_json(c1.unconfirmed_transactions) + ((",\"difficulty\":")@ + (spec_dec(
            c1.difficulty as nat,
        ) + seq!['}'])),
        spec_txs_json(c2.unconfirmed_transactions) + ((",\"difficulty\":")@ + (spec_dec(
            c2.difficulty as nat,
        ) + seq!['}'])),
    );
    lemma_txs_json_unamb(
        c1.unconfirmed_transactions,
        c2.unconfirmed_transactions,
        (",\"difficulty\":")@ + (spec_dec(c1.difficulty as nat) + seq!['}']),
        (",\"difficulty\":")@ + (spec_dec(c2.difficulty as nat) + seq!['}']),
    );
    lemma_cancel(
        (",\"difficulty\":")@,
        spec_dec(c1.difficulty as nat) + seq!['}'],
        spec_dec(c2.difficulty as nat) + seq!['}'],
    );
    assert((seq!['}'])[0] == '}');
    assert(!spec_is_digit('}'));
    lemma_dec_unamb(c1.difficulty as nat, c2.difficulty as nat, seq!['}'], seq!['}']);
    assert(c1 =~= c2);
}

pub(crate) proof fn lemma_dec_leading(v: nat)
    ensures
        v >= 1 ==> spec_dec(v)[0] != '0',
    decreases v,
{
    if 1 <= v < 10 {
        assert(spec_dec_digit(v as int) != '0');
    } else if v >= 10 {
        lemma_dec_leading(v / 10);
        lemma_dec_digits(v / 10);
        assert(spec_dec(v)[0] == spec_dec(v / 10)[0]);
    }
}

pub(crate) proof fn lemma_tx_json_reassoc(t: TxView, r: Seq<char>)
    ensures
        spec_tx_json(t) + r == ("{\"from_address\":")@ + (spec_json_string(t.from_address) + ((",\"to_address\":")@ + (spec_json_string(t.to_address) + ((",\"amount\":")@ + (spec_dec(t.amount as nat) + ((",\"coinbase\":")@ + (spec_bool_json(t.coinbase) + (seq!['}'] + r)))))))),
{
    let p1 = ("{\"from_address\":")@;
    let p2 = p1 + spec_json_string(t.from_address);
    let p3 = p2 + (",\"to_address\":")@;
    let p4 = p3 + spec_json_string(t.to_address);
    let p5 = p4 + (",\"amount\":")@;
    let p6 = p5 + spec_dec(t.amount as nat);
    let p7 = p6 + (",\"coinbase\":")@;
    let p8 = p7 + spec_bool_json(t.coinbase);
    let t10 = r;
    let t9 = seq!['}'] + t10;
    let t8 = spec_bool_json(t.coinbase) + t9;
    let t7 = (",\"coinbase\":")@ + t8;
    let t6 = spec_dec(t.amount as nat) + t7;
    let t5 = (",\"amount\":")@ + t6;
    let t4 = spec_json_string(t.to_address) + t5;
    let t3 = (",\"to_address\":")@ + t4;
    let t2 = spec_json_string(t.from_address) + t3;
    assert(spec_tx_json(t) == p8 + seq!['}']);
    vstd::seq_lib::lemma_concat_associative(p8, seq!['}'], t10);
    vstd::seq_lib::lemma_concat_associative(p7, spec_bool_json(t.coinbase), t9);
    vstd::seq_lib::lemma_concat_associative(p6, (",\"coinbase\":")@, t8);
    vstd::seq_lib::lemma_concat_associative(p5, spec_dec(t.amount as nat), t7);
    vstd::seq_lib::lemma_concat_associative(p4, (",\"amount\":")@, t6);
    vstd::seq_lib::lemma_concat_associative(p3, spec_json_string(t.to_address), t5);
    vstd::seq_lib::lemma_concat_associative(p2, (",\"to_address\":")@, t4);
    vstd::seq_lib::lemma_concat_associative(p1, spec_json_string(t.from_address), t3);
    assert(spec_tx_json(t) + r == ("{\"from_address\":")@ + t2);
}

pub(crate) proof fn lemma_chain_json_reassoc(c: ChainView, r: Seq<char>)
    ensures
        spec_chain_json(c) + r == ("{\"blocks\":")@ + (spec_blocks_json(c.blocks) + ((",\"unconfirmed_transactions\":")@ + (spec_txs_json(c.unconfirmed_transactions) + ((",\"difficulty\":")@ + (spec_dec(c.difficulty as nat) + (seq!['}'] + r)))))),
{
    let p1 = ("{\"blocks\":")@;
    let p2 = p1 + spec_blocks_json(c.blocks);
    let p3 = p2 + (",\"unconfirmed_transactions\":")@;
    let p4 = p3 + spec_txs_json(c.unconfirmed_transactions);
    let p5 = p4 + (",\"difficulty\":")@;
    let p6 = p5 + spec_dec(c.difficulty as nat);
    let t8 = r;
    let t7 = seq!['}'] + t8;
    let t6 = spec_dec(c.difficulty as nat) + t7;
    let t5 = (",\"difficulty\":")@ + t6;
    let t4 = spec_txs_json(c.unconfirmed_transactions) + t5;
    let t3 = (",\"unconfirmed_transactions\":")@ + t4;
    let t2 = spec_blocks_json(c.blocks) + t3;
    assert(spec_chain_json(c) == p6 + seq!['}']);
    vstd::seq_lib::lemma_concat_associative(p6, seq!['}'], t8);
    vstd::seq_lib::lemma_concat_associative(p5, spec_dec(c.difficulty as nat), t7);
    vstd::seq_lib::lemma_concat_associative(p4, (",\"difficulty\":")@, t6);
    vstd::seq_lib::lemma_concat_associative(p3, spec_txs_json(c.unconfirmed_transactions), t5);
    vstd::seq_lib::lemma_concat_associative(p2, (",\"unconfirmed_transactions\":")@, t4);
    vstd::seq_lib::lemma_concat_associative(p1, spec_blocks_json(c.blocks), t3);
    assert(spec_chain_json(c) + r == ("{\"blocks\":")@ + t2);
}

} // verus!
