//! The names that a network's matrices are kept under are all different, so each is read back as
//! itself.

use vstd::prelude::*;

use crate::model::{Attn, Expert, Layer, Mlp, Model};
use crate::plan;
use crate::text;
use crate::wcache;

verus! {

// ---------------------------------------------------------------------------------------
// Numbers in names
// ---------------------------------------------------------------------------------------

/// A number in decimal is made of digits, and the digits write the number.
pub proof fn decimal_reads_back(n: nat)
    ensures
        text::decimal(n).len() > 0,
        forall|i: int|
            0 <= i < text::decimal(n).len() ==> text::is_digit(#[trigger] text::decimal(n)[i]),
        text::number_of(text::decimal(n)) == n,
    decreases n,
{
    let s = text::decimal(n);
    if n < 10 {
        assert(s =~= seq![text::digit(n)]);
        assert(text::number_of(s.drop_last()) == 0);
    } else {
        let front = text::decimal(n / 10);
        decimal_reads_back(n / 10);
        assert(s =~= front.push(text::digit(n % 10)));
        assert(s.drop_last() =~= front);
    }
}

/// A number with a dot behind it can be told from what follows.
proof fn lemma_numbered(a: nat, x: Seq<char>, b: nat, y: Seq<char>)
    requires
        text::decimal(a) + "."@ + x == text::decimal(b) + "."@ + y,
    ensures
        a == b,
        x == y,
{
    reveal_strlit(".");
    decimal_reads_back(a);
    decimal_reads_back(b);
    let (da, db) = (text::decimal(a), text::decimal(b));
    let (s, t) = (da + "."@ + x, db + "."@ + y);
    assert(s[da.len() as int] == '.');
    assert(t[db.len() as int] == '.');
    if da.len() < db.len() {
        assert(t[da.len() as int] == db[da.len() as int]);
    }
    if db.len() < da.len() {
        assert(s[db.len() as int] == da[db.len() as int]);
    }
    assert(da =~= db) by {
        assert forall|i: int| 0 <= i < da.len() implies da[i] == db[i] by {
            assert(s[i] == da[i] && t[i] == db[i]);
        }
    }
    assert(s.len() == t.len());
    assert(s.skip(da.len() as int + 1) =~= x);
    assert(t.skip(db.len() as int + 1) =~= y);
}

// ---------------------------------------------------------------------------------------
// Lists of names
// ---------------------------------------------------------------------------------------

/// No name occurs twice.
pub open spec fn apart(s: Seq<wcache::Named>) -> bool {
    forall|i: int, j: int| 0 <= i < j < s.len() ==> #[trigger] s[i].0 != #[trigger] s[j].0
}

/// The name begins with `p`, and what follows begins with `q`.
spec fn under(name: Seq<char>, p: Seq<char>, q: Seq<char>) -> bool {
    exists|x: Seq<char>| name == p + (q + #[trigger] rest(x))
}

/// A name's rest.
spec fn rest(x: Seq<char>) -> Seq<char> {
    x
}

/// The name begins with `p`.
spec fn starts(name: Seq<char>, p: Seq<char>) -> bool {
    exists|x: Seq<char>| name == p + #[trigger] rest(x)
}

/// The name begins with `p`, and what follows begins with an `m`, or, without `m`, with another
/// letter.
spec fn starts_letter(name: Seq<char>, p: Seq<char>, m: bool) -> bool {
    exists|x: Seq<char>|
        name == p + #[trigger] rest(x) && x.len() > 0 && (x[0] == 'm') == m
}

/// The name is that of one of the first `n` experts.
spec fn of_expert(name: Seq<char>, p: Seq<char>, n: int) -> bool {
    exists|e: nat| e < n && #[trigger] under(name, p, expert_part(e))
}

/// The name is that of one of the first `n` layers.
spec fn of_layer(name: Seq<char>, p: Seq<char>, n: int) -> bool {
    exists|l: nat| l < n && #[trigger] under(name, p, layer_part(l))
}

/// Two lists whose names differ make one.
proof fn lemma_join(a: Seq<wcache::Named>, b: Seq<wcache::Named>)
    requires
        apart(a),
        apart(b),
        forall|i: int, j: int|
            0 <= i < a.len() && 0 <= j < b.len() ==> #[trigger] a[i].0 != #[trigger] b[j].0,
    ensures
        apart(a + b),
{
    let s = a + b;
    assert forall|i: int, j: int| 0 <= i < j < s.len() implies #[trigger] s[i].0 != #[trigger] s[j].0 by {
        if j < a.len() {
            assert(a[i].0 != a[j].0);
        } else if i < a.len() {
            assert(a[i].0 != b[j - a.len()].0);
        } else {
            assert(b[i - a.len()].0 != b[j - a.len()].0);
        }
    }
}

/// Names that differ behind a common start differ.
proof fn lemma_same_start(p: Seq<char>, x: Seq<char>, y: Seq<char>)
    requires
        p + x == p + y,
    ensures
        x == y,
{
    let (s, t) = (p + x, p + y);
    assert(s.len() == t.len());
    assert forall|i: int| 0 <= i < x.len() implies x[i] == y[i] by {
        assert(s[p.len() + i] == x[i] && t[p.len() + i] == y[i]);
    }
    assert(x =~= y);
}

/// The names of a feed-forward network.
proof fn lemma_expert(e: Expert, p: Seq<char>)
    ensures
        apart(plan::expert_list(e, p)),
        plan::expert_list(e, p).len() == 3,
        forall|i: int|
            0 <= i < 3 ==> starts((#[trigger] plan::expert_list(e, p)[i]).0, p),
{
    reveal_strlit("gate_proj.weight");
    reveal_strlit("up_proj.weight");
    reveal_strlit("down_proj.weight");
    let s = plan::expert_list(e, p);
    let n = p.len() as int;
    assert(s[0].0[n] == 'g' && s[1].0[n] == 'u' && s[2].0[n] == 'd');
    assert(s[0].0 == p + rest("gate_proj.weight"@));
    assert(s[1].0 == p + rest("up_proj.weight"@));
    assert(s[2].0 == p + rest("down_proj.weight"@));
}

/// The start of an expert's names within its layer.
spec fn expert_part(e: nat) -> Seq<char> {
    "mlp.experts."@ + text::decimal(e) + "."@
}

/// The names of the experts of a layer.
proof fn lemma_experts(s: Seq<Expert>, p: Seq<char>, n: int)
    requires
        0 <= n <= s.len(),
    ensures
        apart(plan::experts_list(s, p, n)),
        forall|i: int|
            0 <= i < plan::experts_list(s, p, n).len() ==> of_expert(
                (#[trigger] plan::experts_list(s, p, n)[i]).0,
                p,
                n,
            ),
    decreases n,
{
    if n > 0 {
        let front = plan::experts_list(s, p, n - 1);
        let k = (n - 1) as nat;
        let ep = plan::expert_prefix(p, k);
        let last = plan::expert_list(s[n - 1], ep);
        let all = plan::experts_list(s, p, n);
        lemma_experts(s, p, n - 1);
        lemma_expert(s[n - 1], ep);
        assert(ep =~= p + expert_part(k));
        assert forall|j: int| 0 <= j < last.len() implies under(
            (#[trigger] last[j]).0,
            p,
            expert_part(k),
        ) by {
            assert(starts(last[j].0, ep));
            let x = choose|x: Seq<char>| last[j].0 == ep + #[trigger] rest(x);
            assert(last[j].0 =~= p + (expert_part(k) + rest(x)));
        }
        assert forall|i: int, j: int|
            0 <= i < front.len() && 0 <= j < last.len() implies #[trigger] front[i].0
            != #[trigger] last[j].0 by {
            assert(of_expert(front[i].0, p, n - 1));
            let e = choose|e: nat| e < n - 1 && #[trigger] under(front[i].0, p, expert_part(e));
            if front[i].0 == last[j].0 {
                lemma_experts_differ(last[j].0, p, e, k);
            }
        }
        lemma_join(front, last);
        assert forall|i: int| 0 <= i < all.len() implies of_expert(
            (#[trigger] all[i]).0,
            p,
            n,
        ) by {
            if i < front.len() {
                assert(all[i] == front[i]);
                let e = choose|e: nat|
                    e < n - 1 && #[trigger] under(front[i].0, p, expert_part(e));
                assert(under(all[i].0, p, expert_part(e)));
            } else {
                assert(all[i] == last[i - front.len()]);
                assert(under(all[i].0, p, expert_part(k)));
            }
        }
    }
}

/// A name belongs to one expert.
proof fn lemma_experts_differ(name: Seq<char>, p: Seq<char>, a: nat, b: nat)
    requires
        under(name, p, expert_part(a)),
        under(name, p, expert_part(b)),
    ensures
        a == b,
{
    let x = choose|x: Seq<char>| name == p + (expert_part(a) + #[trigger] rest(x));
    let y = choose|y: Seq<char>| name == p + (expert_part(b) + #[trigger] rest(y));
    lemma_same_start(p, expert_part(a) + x, expert_part(b) + y);
    let m = "mlp.experts."@;
    assert(expert_part(a) + x =~= m + (text::decimal(a) + "."@ + x));
    assert(expert_part(b) + y =~= m + (text::decimal(b) + "."@ + y));
    lemma_same_start(m, text::decimal(a) + "."@ + x, text::decimal(b) + "."@ + y);
    lemma_numbered(a, x, b, y);
}

/// The names of a layer's attention.
proof fn lemma_attention<F>(l: Layer<F>, p: Seq<char>) -> (s: Seq<wcache::Named>)
    ensures
        s == (match l.attn {
            Attn::Full { wq, wk, wv, wo, q_norm, k_norm, gate } => plan::zipped(
                plan::full_names(p),
                l.attn.matrices(),
            ),
            Attn::Lin { w_qkv, w_z, w_b, w_a, conv_w, dt_bias, a_log, norm_w, w_out } => plan::zipped(
                plan::lin_names(p),
                l.attn.matrices(),
            ),
        }),
        apart(s),
        forall|i: int| 0 <= i < s.len() ==> starts_letter((#[trigger] s[i]).0, p, false),
{
    let n = p.len() as int;
    match l.attn {
        Attn::Full { wq, wk, wv, wo, q_norm, k_norm, gate } => {
            reveal_strlit("self_attn.q_proj.weight");
            reveal_strlit("self_attn.k_proj.weight");
            reveal_strlit("self_attn.v_proj.weight");
            reveal_strlit("self_attn.o_proj.weight");
            let s = plan::zipped(plan::full_names(p), l.attn.matrices());
            assert(s[0].0[n + 10] == 'q' && s[1].0[n + 10] == 'k' && s[2].0[n + 10] == 'v'
                && s[3].0[n + 10] == 'o');
            assert(s[0].0 == p + rest("self_attn.q_proj.weight"@));
            assert(s[1].0 == p + rest("self_attn.k_proj.weight"@));
            assert(s[2].0 == p + rest("self_attn.v_proj.weight"@));
            assert(s[3].0 == p + rest("self_attn.o_proj.weight"@));
            s
        },
        Attn::Lin { w_qkv, w_z, w_b, w_a, conv_w, dt_bias, a_log, norm_w, w_out } => {
            reveal_strlit("linear_attn.in_proj_qkv.weight");
            reveal_strlit("linear_attn.in_proj_z.weight");
            reveal_strlit("linear_attn.in_proj_b.weight");
            reveal_strlit("linear_attn.in_proj_a.weight");
            reveal_strlit("linear_attn.out_proj.weight");
            let s = plan::zipped(plan::lin_names(p), l.attn.matrices());
            assert(s[0].0[n + 20] == 'q' && s[1].0[n + 20] == 'z' && s[2].0[n + 20] == 'b'
                && s[3].0[n + 20] == 'a');
            assert(s[0].0[n + 12] == 'i' && s[1].0[n + 12] == 'i' && s[2].0[n + 12] == 'i'
                && s[3].0[n + 12] == 'i' && s[4].0[n + 12] == 'o');
            assert(s[0].0 == p + rest("linear_attn.in_proj_qkv.weight"@));
            assert(s[1].0 == p + rest("linear_attn.in_proj_z.weight"@));
            assert(s[2].0 == p + rest("linear_attn.in_proj_b.weight"@));
            assert(s[3].0 == p + rest("linear_attn.in_proj_a.weight"@));
            assert(s[4].0 == p + rest("linear_attn.out_proj.weight"@));
            s
        },
    }
}

/// The names of a layer's feed-forward part.
proof fn lemma_feed_forward<F>(l: Layer<F>, p: Seq<char>) -> (s: Seq<wcache::Named>)
    ensures
        s == (match l.mlp {
            Mlp::Dense(e) => plan::expert_list(e, p + "mlp."@),
            Mlp::Moe { router, experts } => plan::experts_list(
                experts@,
                p,
                experts@.len() as int,
            ),
        }),
        apart(s),
        forall|i: int| 0 <= i < s.len() ==> starts_letter((#[trigger] s[i]).0, p, true),
{
    match l.mlp {
        Mlp::Dense(e) => {
            reveal_strlit("mlp.");
            let s = plan::expert_list(e, p + "mlp."@);
            lemma_expert(e, p + "mlp."@);
            assert forall|i: int| 0 <= i < s.len() implies starts_letter(
                (#[trigger] s[i]).0,
                p,
                true,
            ) by {
                assert(starts(s[i].0, p + "mlp."@));
                let y = choose|y: Seq<char>| s[i].0 == (p + "mlp."@) + #[trigger] rest(y);
                let x = "mlp."@ + y;
                assert(s[i].0 =~= p + rest(x));
            }
            s
        },
        Mlp::Moe { router, experts } => {
            reveal_strlit("mlp.experts.");
            let n = experts@.len() as int;
            let s = plan::experts_list(experts@, p, n);
            lemma_experts(experts@, p, n);
            assert forall|i: int| 0 <= i < s.len() implies starts_letter(
                (#[trigger] s[i]).0,
                p,
                true,
            ) by {
                assert(of_expert(s[i].0, p, n));
                let e = choose|e: nat| e < n && #[trigger] under(s[i].0, p, expert_part(e));
                let y = choose|y: Seq<char>| s[i].0 == p + (expert_part(e) + #[trigger] rest(y));
                let x = expert_part(e) + y;
                assert(x[0] == "mlp.experts."@[0]);
                assert(s[i].0 == p + rest(x));
            }
            s
        },
    }
}

/// The names of a layer.
proof fn lemma_layer<F>(l: Layer<F>, p: Seq<char>)
    ensures
        apart(plan::layer_list(l, p)),
        forall|i: int|
            0 <= i < plan::layer_list(l, p).len() ==> starts(
                (#[trigger] plan::layer_list(l, p)[i]).0,
                p,
            ),
{
    let a = lemma_attention(l, p);
    let b = lemma_feed_forward(l, p);
    assert(plan::layer_list(l, p) == a + b);
    assert forall|i: int, j: int|
        0 <= i < a.len() && 0 <= j < b.len() implies #[trigger] a[i].0 != #[trigger] b[j].0 by {
        assert(starts_letter(a[i].0, p, false) && starts_letter(b[j].0, p, true));
        let x = choose|x: Seq<char>|
            a[i].0 == p + #[trigger] rest(x) && x.len() > 0 && (x[0] == 'm') == false;
        let y = choose|y: Seq<char>|
            b[j].0 == p + #[trigger] rest(y) && y.len() > 0 && (y[0] == 'm') == true;
        if a[i].0 == b[j].0 {
            lemma_same_start(p, x, y);
        }
    }
    lemma_join(a, b);
    let s = plan::layer_list(l, p);
    assert forall|i: int| 0 <= i < s.len() implies starts((#[trigger] s[i]).0, p) by {
        if i < a.len() {
            assert(s[i] == a[i]);
            assert(starts_letter(a[i].0, p, false));
        } else {
            assert(s[i] == b[i - a.len()]);
            assert(starts_letter(b[i - a.len()].0, p, true));
        }
    }
}

/// The start of a layer's names behind the prefix.
spec fn layer_part(l: nat) -> Seq<char> {
    "layers."@ + text::decimal(l) + "."@
}

/// A name belongs to one layer.
proof fn lemma_layers_differ(name: Seq<char>, p: Seq<char>, a: nat, b: nat)
    requires
        under(name, p, layer_part(a)),
        under(name, p, layer_part(b)),
    ensures
        a == b,
{
    let x = choose|x: Seq<char>| name == p + (layer_part(a) + #[trigger] rest(x));
    let y = choose|y: Seq<char>| name == p + (layer_part(b) + #[trigger] rest(y));
    lemma_same_start(p, layer_part(a) + x, layer_part(b) + y);
    let m = "layers."@;
    assert(layer_part(a) + x =~= m + (text::decimal(a) + "."@ + x));
    assert(layer_part(b) + y =~= m + (text::decimal(b) + "."@ + y));
    lemma_same_start(m, text::decimal(a) + "."@ + x, text::decimal(b) + "."@ + y);
    lemma_numbered(a, x, b, y);
}

/// The names of the layers.
proof fn lemma_layers<F>(s: Seq<Layer<F>>, prefix: Seq<char>, n: int)
    requires
        0 <= n <= s.len(),
    ensures
        apart(plan::layers_list(s, prefix, n)),
        forall|i: int|
            0 <= i < plan::layers_list(s, prefix, n).len() ==> of_layer(
                (#[trigger] plan::layers_list(s, prefix, n)[i]).0,
                prefix,
                n,
            ),
    decreases n,
{
    if n > 0 {
        let front = plan::layers_list(s, prefix, n - 1);
        let k = (n - 1) as nat;
        let lp = plan::layer_prefix(prefix, k);
        let last = plan::layer_list(s[n - 1], lp);
        let all = plan::layers_list(s, prefix, n);
        lemma_layers(s, prefix, n - 1);
        lemma_layer(s[n - 1], lp);
        assert(lp =~= prefix + layer_part(k));
        assert forall|j: int| 0 <= j < last.len() implies under(
            (#[trigger] last[j]).0,
            prefix,
            layer_part(k),
        ) by {
            assert(starts(last[j].0, lp));
            let x = choose|x: Seq<char>| last[j].0 == lp + #[trigger] rest(x);
            assert(last[j].0 =~= prefix + (layer_part(k) + rest(x)));
        }
        assert forall|i: int, j: int|
            0 <= i < front.len() && 0 <= j < last.len() implies #[trigger] front[i].0
            != #[trigger] last[j].0 by {
            assert(of_layer(front[i].0, prefix, n - 1));
            let l = choose|l: nat| l < n - 1 && #[trigger] under(front[i].0, prefix, layer_part(l));
            if front[i].0 == last[j].0 {
                lemma_layers_differ(last[j].0, prefix, l, k);
            }
        }
        lemma_join(front, last);
        assert forall|i: int| 0 <= i < all.len() implies of_layer(
            (#[trigger] all[i]).0,
            prefix,
            n,
        ) by {
            if i < front.len() {
                assert(all[i] == front[i]);
                let l = choose|l: nat|
                    l < n - 1 && #[trigger] under(front[i].0, prefix, layer_part(l));
                assert(under(all[i].0, prefix, layer_part(l)));
            } else {
                assert(all[i] == last[i - front.len()]);
                assert(under(all[i].0, prefix, layer_part(k)));
            }
        }
    }
}

// ---------------------------------------------------------------------------------------
// The whole network
// ---------------------------------------------------------------------------------------

/// What is kept of a network.
pub open spec fn kept<F>(m: Model<F>, own_head: bool) -> Seq<wcache::Named> {
    plan::layers_list(m.layers@, m.config.prefix@, m.layers@.len() as int).push(
        (plan::head_name(m.config.prefix@, own_head), m.lm_head@),
    )
}

/// The names of a checkpoint begin in one of two ways.
pub open spec fn known_prefix(p: Seq<char>) -> bool {
    p == "model."@ || p == "model.language_model."@
}

/// No two matrices of a network are kept under one name.
pub proof fn kept_names_differ<F>(m: Model<F>, own_head: bool)
    requires
        known_prefix(m.config.prefix@),
    ensures
        apart(kept(m, own_head)),
{
    let p = m.config.prefix@;
    let n = m.layers@.len() as int;
    let s = plan::layers_list(m.layers@, p, n);
    let head = plan::head_name(p, own_head);
    lemma_layers(m.layers@, p, n);
    reveal_strlit("model.");
    reveal_strlit("model.language_model.");
    reveal_strlit("lm_head.weight");
    reveal_strlit("embed_tokens.weight");
    reveal_strlit("layers.");
    assert forall|i: int| 0 <= i < s.len() implies (#[trigger] s[i]).0 != head by {
        assert(of_layer(s[i].0, p, n));
        let l = choose|l: nat| l < n && #[trigger] under(s[i].0, p, layer_part(l));
        let x = choose|x: Seq<char>| s[i].0 == p + (layer_part(l) + #[trigger] rest(x));
        assert(s[i].0[0] == 'm');
        assert(s[i].0[p.len() as int] == 'l') by {
            assert((layer_part(l) + rest(x))[0] == "layers."@[0]);
        }
        if own_head {
            assert(head[0] == 'l');
        } else {
            assert(head[p.len() as int] == 'e');
        }
    }
    let last = seq![(head, m.lm_head@)];
    lemma_join(s, last);
    assert(kept(m, own_head) =~= s + last);
}

/// A network with a code for every weight can be kept: the file that is written for it is read back
/// as exactly its matrices.
pub proof fn networks_can_be_kept<F>(m: Model<F>, own_head: bool)
    requires
        known_prefix(m.config.prefix@),
        forall|i: int|
            0 <= i < kept(m, own_head).len() ==> (#[trigger] kept(m, own_head)[i]).1.wf() && kept(
                m,
                own_head,
            )[i].1.rows() * kept(m, own_head)[i].1.cols() <= usize::MAX,
    ensures
        wcache::proper(kept(m, own_head)),
{
    kept_names_differ(m, own_head);
}

/// A number that is written in decimal is read as that number, with or without a plus sign.
pub proof fn written_numbers_are_read(n: u64)
    ensures
        text::parsed(text::decimal(n as nat)) == Some(n),
        text::parsed(seq!['+'] + text::decimal(n as nat)) == Some(n),
        n <= usize::MAX ==> text::parsed_size(text::decimal(n as nat)) == Some(n as usize),
{
    let d = text::decimal(n as nat);
    decimal_reads_back(n as nat);
    assert(text::is_digit(d[0]));
    assert(text::unsigned_digits(d) == d);
    assert(text::unsigned_digits(seq!['+'] + d) =~= d);
}

/// What holds a character other than digits behind an optional plus sign is no number.
pub proof fn only_digits_are_numbers(s: Seq<char>, i: int)
    requires
        0 <= i < s.len(),
        !text::is_digit(s[i]),
        i > 0 || s[0] != '+' || s.len() == 1,
    ensures
        text::parsed(s) is None,
{
    let d = text::unsigned_digits(s);
    if s[0] == '+' {
        if i > 0 {
            assert(d[i - 1] == s[i]);
        }
    } else {
        assert(d[i] == s[i]);
    }
}

} // verus!
