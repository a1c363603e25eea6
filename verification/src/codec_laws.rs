//! The codec's round-trip laws: parsing back what the encoder wrote yields
//! the collection that was encoded, entry for entry and field for field.

use vstd::prelude::*;
use crate::repo::RepoView;
use crate::settings::SettingView;
use crate::codec::{
    enc_string, enc_bool, enc_repo, enc_setting, enc_elements, spec_encode, escape_chars,
    escape_char, dec_digits, digit_char, digit_val, is_digit, is_ws, skip_ws, provider_name,
    key_git_type, key_owner, key_name, key_id, key_order, key_favourite, key_repo, unescape_char,
    parse_string, parse_string_body, parse_digits, parse_number, parse_bool, parse_provider,
    parse_repo, parse_repo_fields, parse_setting, parse_setting_fields, parse_elements,
    spec_parse, RepoParts, SettingParts,
};

verus! {

/// An order value that the machine can hold.
pub open spec fn valid_order(v: SettingView) -> bool {
    0 <= v.order <= usize::MAX as int
}

/// Text that does not begin with whitespace is already clean.
proof fn lemma_skip_ws_clean(s: Seq<char>)
    requires
        s.len() == 0 || !is_ws(s[0]),
    ensures
        skip_ws(s) == s,
{
}

/// The escaped characters of a string followed by its closing quote parse
/// back to exactly that string.
proof fn lemma_string_body_round(v: Seq<char>, rest: Seq<char>)
    ensures
        parse_string_body(escape_chars(v) + seq!['"'] + rest) == Some((v, rest)),
    decreases v.len(),
{
    let s = escape_chars(v) + seq!['"'] + rest;
    if v.len() == 0 {
        assert(escape_chars(v) == Seq::<char>::empty());
        assert(s =~= seq!['"'] + rest);
        assert(s[0] == '"');
        assert(s.drop_first() =~= rest);
    } else {
        let c = v[0];
        let tail = escape_chars(v.drop_first()) + seq!['"'] + rest;
        assert(escape_chars(v) == escape_char(c) + escape_chars(v.drop_first()));
        lemma_string_body_round(v.drop_first(), rest);
        if c == '"' {
            assert(s =~= seq!['\\', '"'] + tail);
            assert(s[0] == '\\');
            assert(s[1] == '"');
            assert(s.len() >= 2);
            assert(unescape_char('"') == Some('"'));
            assert(s.skip(2) =~= tail);
            assert(seq!['"'] + v.drop_first() =~= v);
        } else if c == '\\' {
            assert(s =~= seq!['\\', '\\'] + tail);
            assert(s[0] == '\\');
            assert(s[1] == '\\');
            assert(unescape_char('\\') == Some('\\'));
            assert(s.skip(2) =~= tail);
            assert(seq!['\\'] + v.drop_first() =~= v);
        } else {
            assert(s =~= seq![c] + tail);
            assert(s[0] == c);
            assert(s.drop_first() =~= tail);
            assert(seq![c] + v.drop_first() =~= v);
        }
    }
}

/// An encoded string value parses back to exactly that string.
proof fn lemma_string_round(v: Seq<char>, rest: Seq<char>)
    ensures
        parse_string(enc_string(v) + rest) == Some((v, rest)),
        (enc_string(v) + rest)[0] == '"',
        enc_string(v).len() >= 2,
{
    let s = enc_string(v) + rest;
    assert(s[0] == '"');
    assert(s.drop_first() =~= escape_chars(v) + seq!['"'] + rest);
    lemma_string_body_round(v, rest);
}

/// Every character that the decimal form of a number uses is a digit.
proof fn lemma_dec_digits_are_digits(n: nat)
    ensures
        dec_digits(n).len() >= 1,
        forall|i: int| 0 <= i < dec_digits(n).len() ==> is_digit(#[trigger] dec_digits(n)[i]),
    decreases n,
{
    assert(forall|d: int| 0 <= d <= 9 ==> digit_val(#[trigger] digit_char(d)) == d);
    if n <= 9 {
    } else {
        lemma_dec_digits_are_digits(n / 10);
    }
}

/// Folding one more digit multiplies the folded value by ten and adds it.
proof fn lemma_parse_digits_snoc(ds: Seq<char>, c: char, acc: int)
    requires
        forall|i: int| 0 <= i < ds.len() ==> is_digit(#[trigger] ds[i]),
        is_digit(c),
    ensures
        parse_digits(ds.push(c), acc).0 == parse_digits(ds, acc).0 * 10 + digit_val(c),
        parse_digits(ds.push(c), acc).1 =~= Seq::<char>::empty(),
    decreases ds.len(),
{
    if ds.len() == 0 {
        assert(ds.push(c).len() == 1);
        assert(ds.push(c)[0] == c);
        assert(ds.push(c).drop_first() =~= Seq::<char>::empty());
        assert(parse_digits(Seq::<char>::empty(), acc * 10 + digit_val(c)) == (
            acc * 10 + digit_val(c),
            Seq::<char>::empty(),
        ));
        assert(parse_digits(ds, acc) == (acc, ds));
    } else {
        assert(ds.push(c)[0] == ds[0]);
        assert(ds.push(c).drop_first() =~= ds.drop_first().push(c));
        lemma_parse_digits_snoc(ds.drop_first(), c, acc * 10 + digit_val(ds[0]));
    }
}

/// The decimal form of a number folds back to that number.
proof fn lemma_parse_digits_value(n: nat)
    ensures
        parse_digits(dec_digits(n), 0).0 == n,
        parse_digits(dec_digits(n), 0).1 =~= Seq::<char>::empty(),
    decreases n,
{
    assert(forall|d: int| 0 <= d <= 9 ==> digit_val(#[trigger] digit_char(d)) == d);
    if n <= 9 {
        assert(dec_digits(n) == seq![digit_char(n as int)]);
        assert(dec_digits(n)[0] == digit_char(n as int));
        assert(dec_digits(n).drop_first() =~= Seq::<char>::empty());
        assert(parse_digits(Seq::<char>::empty(), digit_val(digit_char(n as int))) == (
            digit_val(digit_char(n as int)),
            Seq::<char>::empty(),
        ));
    } else {
        lemma_parse_digits_value(n / 10);
        lemma_dec_digits_are_digits(n / 10);
        assert(dec_digits(n) =~= dec_digits(n / 10).push(digit_char((n % 10) as int)));
        lemma_parse_digits_snoc(dec_digits(n / 10), digit_char((n % 10) as int), 0);
        assert(parse_digits(dec_digits(n), 0).0 == (n / 10) * 10 + (n % 10));
        assert((n / 10) * 10 + (n % 10) == n) by (nonlinear_arith);
    }
}

/// Reading digits stops exactly where the digits stop.
proof fn lemma_parse_digits_split(ds: Seq<char>, rest: Seq<char>, acc: int)
    requires
        forall|i: int| 0 <= i < ds.len() ==> is_digit(#[trigger] ds[i]),
        rest.len() == 0 || !is_digit(rest[0]),
    ensures
        parse_digits(ds + rest, acc) == (parse_digits(ds, acc).0, rest),
    decreases ds.len(),
{
    if ds.len() == 0 {
        assert(ds + rest =~= rest);
    } else {
        assert((ds + rest)[0] == ds[0]);
        assert((ds + rest).drop_first() =~= ds.drop_first() + rest);
        lemma_parse_digits_split(ds.drop_first(), rest, acc * 10 + digit_val(ds[0]));
    }
}

/// An encoded number followed by anything but a digit parses back to that
/// number.
proof fn lemma_number_round(n: nat, rest: Seq<char>)
    requires
        n <= usize::MAX as nat,
        rest.len() == 0 || !is_digit(rest[0]),
    ensures
        parse_number(dec_digits(n) + rest) == Some((n as int, rest)),
{
    let s = dec_digits(n) + rest;
    lemma_dec_digits_are_digits(n);
    assert(s[0] == dec_digits(n)[0]);
    lemma_parse_digits_split(dec_digits(n), rest, 0);
    lemma_parse_digits_value(n);
}

/// An encoded boolean parses back to that boolean.
proof fn lemma_bool_round(b: bool, rest: Seq<char>)
    ensures
        parse_bool(enc_bool(b) + rest) == Some((b, rest)),
{
    let s = enc_bool(b) + rest;
    if b {
        assert(s.take(4) =~= enc_bool(true));
        assert(s.skip(4) =~= rest);
    } else {
        if s.len() >= 4 && s.take(4) == enc_bool(true) {
            assert(s.take(4)[0] == s[0]);
            assert(false);
        }
        assert(s.take(5) =~= enc_bool(false));
        assert(s.skip(5) =~= rest);
    }
}

/// An encoded provider tag parses back to that provider.
proof fn lemma_provider_round(g: crate::repo::GitProvider, rest: Seq<char>)
    ensures
        parse_provider(enc_string(provider_name(g)) + rest) == Some((g, rest)),
{
    lemma_string_round(provider_name(g), rest);
    assert(provider_name(crate::repo::GitProvider::GitHub)[3] == 'H');
    assert(provider_name(crate::repo::GitProvider::GitLab)[3] == 'L');
}

/// Law: a repository identity survives the persisted form. Whatever stands
/// after it, parsing back the encoded identity reproduces the provider, the
/// owner and the name exactly, and leaves the rest untouched.
#[verifier::rlimit(100)]
pub proof fn lemma_repo_round_trip(r: RepoView, rest: Seq<char>)
    ensures
        parse_repo(enc_repo(r) + rest) == Some((r, rest)),
{
    let k1 = enc_string(key_git_type());
    let v1 = enc_string(provider_name(r.git_type));
    let k2 = enc_string(key_owner());
    let v2 = enc_string(r.owner);
    let k3 = enc_string(key_name());
    let v3 = enc_string(r.name);
    let s = enc_repo(r) + rest;
    let t2 = k3 + seq![':'] + v3 + seq!['}'] + rest;
    let t1 = k2 + seq![':'] + v2 + seq![','] + t2;
    let t0 = k1 + seq![':'] + v1 + seq![','] + t1;
    assert(s =~= seq!['{'] + t0);
    assert(s[0] == '{');
    assert(s.drop_first() =~= t0);
    assert(t0[0] == '"');
    lemma_skip_ws_clean(t0);

    // first member: the provider tag
    let a0 = RepoParts { git_type: None, owner: None, name: None };
    assert(t0 =~= k1 + (seq![':'] + v1 + seq![','] + t1));
    lemma_string_round(key_git_type(), seq![':'] + v1 + seq![','] + t1);
    let u0 = seq![':'] + v1 + seq![','] + t1;
    assert(u0[0] == ':');
    lemma_skip_ws_clean(u0);
    let w0 = v1 + (seq![','] + t1);
    assert(u0.drop_first() =~= w0);
    assert(w0[0] == '"');
    lemma_skip_ws_clean(w0);
    lemma_provider_round(r.git_type, seq![','] + t1);
    let x0 = seq![','] + t1;
    assert(x0[0] == ',');
    lemma_skip_ws_clean(x0);
    assert(x0.drop_first() =~= t1);
    assert(t1[0] == '"');
    lemma_skip_ws_clean(t1);
    assert(t1.len() < t0.len());
    let a1 = RepoParts { git_type: Some(r.git_type), owner: None, name: None };
    assert(parse_repo_fields(t0, a0) == parse_repo_fields(t1, a1));

    // second member: the owner
    assert(key_owner().len() == 5 && key_git_type().len() == 8);
    assert(t1 =~= k2 + (seq![':'] + v2 + seq![','] + t2));
    lemma_string_round(key_owner(), seq![':'] + v2 + seq![','] + t2);
    let u1 = seq![':'] + v2 + seq![','] + t2;
    assert(u1[0] == ':');
    lemma_skip_ws_clean(u1);
    let w1 = v2 + (seq![','] + t2);
    assert(u1.drop_first() =~= w1);
    assert(w1[0] == '"');
    lemma_skip_ws_clean(w1);
    lemma_string_round(r.owner, seq![','] + t2);
    let x1 = seq![','] + t2;
    assert(x1[0] == ',');
    lemma_skip_ws_clean(x1);
    assert(x1.drop_first() =~= t2);
    assert(t2[0] == '"');
    lemma_skip_ws_clean(t2);
    assert(t2.len() < t1.len());
    let a2 = RepoParts { git_type: Some(r.git_type), owner: Some(r.owner), name: None };
    assert(parse_repo_fields(t1, a1) == parse_repo_fields(t2, a2));

    // third member: the name, then the closing brace
    assert(key_name().len() == 4);
    assert(t2 =~= k3 + (seq![':'] + v3 + seq!['}'] + rest));
    lemma_string_round(key_name(), seq![':'] + v3 + seq!['}'] + rest);
    let u2 = seq![':'] + v3 + seq!['}'] + rest;
    assert(u2[0] == ':');
    lemma_skip_ws_clean(u2);
    let w2 = v3 + (seq!['}'] + rest);
    assert(u2.drop_first() =~= w2);
    assert(w2[0] == '"');
    lemma_skip_ws_clean(w2);
    lemma_string_round(r.name, seq!['}'] + rest);
    let x2 = seq!['}'] + rest;
    assert(x2[0] == '}');
    lemma_skip_ws_clean(x2);
    assert(x2.drop_first() =~= rest);
    assert(parse_repo_fields(t2, a2) == Some(
        (RepoView { git_type: r.git_type, owner: r.owner, name: r.name }, rest),
    ));
    assert(RepoView { git_type: r.git_type, owner: r.owner, name: r.name } =~= r);
}

/// Law: one entry survives the persisted form, whatever stands after it.
#[verifier::rlimit(100)]
pub proof fn lemma_setting_round_trip(v: SettingView, rest: Seq<char>)
    requires
        valid_order(v),
    ensures
        parse_setting(enc_setting(v) + rest) == Some((v, rest)),
{
    let k1 = enc_string(key_id());
    let v1 = enc_string(v.id);
    let k2 = enc_string(key_order());
    let v2 = dec_digits(v.order as nat);
    let k3 = enc_string(key_favourite());
    let v3 = enc_bool(v.favourite);
    let k4 = enc_string(key_repo());
    let v4 = enc_repo(v.repo);
    let s = enc_setting(v) + rest;
    let t3 = k4 + seq![':'] + v4 + seq!['}'] + rest;
    let t2 = k3 + seq![':'] + v3 + seq![','] + t3;
    let t1 = k2 + seq![':'] + v2 + seq![','] + t2;
    let t0 = k1 + seq![':'] + v1 + seq![','] + t1;
    assert(s =~= seq!['{'] + t0);
    assert(s[0] == '{');
    assert(s.drop_first() =~= t0);
    assert(t0[0] == '"');
    lemma_skip_ws_clean(t0);

    // first member: the identifier
    let a0 = SettingParts { id: None, order: None, favourite: None, repo: None };
    assert(t0 =~= k1 + (seq![':'] + v1 + seq![','] + t1));
    lemma_string_round(key_id(), seq![':'] + v1 + seq![','] + t1);
    let u0 = seq![':'] + v1 + seq![','] + t1;
    assert(u0[0] == ':');
    lemma_skip_ws_clean(u0);
    let w0 = v1 + (seq![','] + t1);
    assert(u0.drop_first() =~= w0);
    assert(w0[0] == '"');
    lemma_skip_ws_clean(w0);
    lemma_string_round(v.id, seq![','] + t1);
    let x0 = seq![','] + t1;
    assert(x0[0] == ',');
    lemma_skip_ws_clean(x0);
    assert(x0.drop_first() =~= t1);
    assert(t1[0] == '"');
    lemma_skip_ws_clean(t1);
    assert(t1.len() < t0.len());
    let a1 = SettingParts { id: Some(v.id), order: None, favourite: None, repo: None };
    assert(parse_setting_fields(t0, a0) == parse_setting_fields(t1, a1));

    // second member: the order
    assert(key_order().len() == 5 && key_id().len() == 2);
    assert(t1 =~= k2 + (seq![':'] + v2 + seq![','] + t2));
    lemma_string_round(key_order(), seq![':'] + v2 + seq![','] + t2);
    let u1 = seq![':'] + v2 + seq![','] + t2;
    assert(u1[0] == ':');
    lemma_skip_ws_clean(u1);
    let w1 = v2 + (seq![','] + t2);
    assert(u1.drop_first() =~= w1);
    lemma_dec_digits_are_digits(v.order as nat);
    assert(w1[0] == v2[0]);
    assert(!is_ws(w1[0]));
    lemma_skip_ws_clean(w1);
    let x1 = seq![','] + t2;
    assert(!is_digit(x1[0]));
    lemma_number_round(v.order as nat, x1);
    assert(w1 =~= v2 + x1);
    assert(x1[0] == ',');
    lemma_skip_ws_clean(x1);
    assert(x1.drop_first() =~= t2);
    assert(t2[0] == '"');
    lemma_skip_ws_clean(t2);
    assert(t2.len() < t1.len());
    let a2 = SettingParts { id: Some(v.id), order: Some(v.order), favourite: None, repo: None };
    assert(parse_setting_fields(t1, a1) == parse_setting_fields(t2, a2));

    // third member: the favourite flag
    assert(key_favourite().len() == 9);
    assert(t2 =~= k3 + (seq![':'] + v3 + seq![','] + t3));
    lemma_string_round(key_favourite(), seq![':'] + v3 + seq![','] + t3);
    let u2 = seq![':'] + v3 + seq![','] + t3;
    assert(u2[0] == ':');
    lemma_skip_ws_clean(u2);
    let w2 = v3 + (seq![','] + t3);
    assert(u2.drop_first() =~= w2);
    assert(w2[0] == v3[0]);
    assert(!is_ws(w2[0]));
    lemma_skip_ws_clean(w2);
    lemma_bool_round(v.favourite, seq![','] + t3);
    assert(w2 =~= enc_bool(v.favourite) + (seq![','] + t3));
    let x2 = seq![','] + t3;
    assert(x2[0] == ',');
    lemma_skip_ws_clean(x2);
    assert(x2.drop_first() =~= t3);
    assert(t3[0] == '"');
    lemma_skip_ws_clean(t3);
    assert(t3.len() < t2.len());
    let a3 = SettingParts {
        id: Some(v.id),
        order: Some(v.order),
        favourite: Some(v.favourite),
        repo: None,
    };
    assert(parse_setting_fields(t2, a2) == parse_setting_fields(t3, a3));

    // fourth member: the repository, then the closing brace
    assert(key_repo().len() == 4);
    assert(t3 =~= k4 + (seq![':'] + v4 + seq!['}'] + rest));
    lemma_string_round(key_repo(), seq![':'] + v4 + seq!['}'] + rest);
    let u3 = seq![':'] + v4 + seq!['}'] + rest;
    assert(u3[0] == ':');
    lemma_skip_ws_clean(u3);
    let w3 = v4 + (seq!['}'] + rest);
    assert(u3.drop_first() =~= w3);
    assert(w3[0] == '{');
    assert(!is_ws(w3[0]));
    lemma_skip_ws_clean(w3);
    lemma_repo_round_trip(v.repo, seq!['}'] + rest);
    assert(w3 =~= enc_repo(v.repo) + (seq!['}'] + rest));
    let x3 = seq!['}'] + rest;
    assert(x3[0] == '}');
    lemma_skip_ws_clean(x3);
    assert(x3.drop_first() =~= rest);
    assert(parse_setting_fields(t3, a3) == Some(
        (
            SettingView {
                id: v.id,
                order: v.order,
                favourite: v.favourite,
                repo: v.repo,
            },
            rest,
        ),
    ));
    assert(SettingView { id: v.id, order: v.order, favourite: v.favourite, repo: v.repo } =~= v);
}

/// The comma-separated entries followed by the closing bracket parse back to
/// exactly those entries.
#[verifier::rlimit(100)]
proof fn lemma_elements_round(vs: Seq<SettingView>, rest: Seq<char>)
    requires
        vs.len() > 0,
        forall|i: int| 0 <= i < vs.len() ==> valid_order(#[trigger] vs[i]),
    ensures
        parse_elements(enc_elements(vs) + seq![']'] + rest) == Some((vs, rest)),
    decreases vs.len(),
{
    let s = enc_elements(vs) + seq![']'] + rest;
    if vs.len() == 1 {
        assert(s =~= enc_setting(vs[0]) + (seq![']'] + rest));
        lemma_setting_round_trip(vs[0], seq![']'] + rest);
        let x = seq![']'] + rest;
        assert(x[0] == ']');
        lemma_skip_ws_clean(x);
        assert(x.drop_first() =~= rest);
        assert(seq![vs[0]] =~= vs);
    } else {
        let t1 = enc_elements(vs.drop_first()) + seq![']'] + rest;
        assert(s =~= enc_setting(vs[0]) + (seq![','] + t1));
        lemma_setting_round_trip(vs[0], seq![','] + t1);
        let x = seq![','] + t1;
        assert(x[0] == ',');
        lemma_skip_ws_clean(x);
        assert(x.drop_first() =~= t1);
        assert(vs.drop_first().len() > 0);
        assert(enc_elements(vs.drop_first()).len() > 0) by {
            lemma_enc_setting_nonempty(vs.drop_first()[0]);
            if vs.drop_first().len() == 1 {
            }
        }
        assert(t1[0] == enc_elements(vs.drop_first())[0]);
        assert(t1[0] == enc_setting(vs.drop_first()[0])[0]) by {
            if vs.drop_first().len() == 1 {
            } else {
                assert(enc_elements(vs.drop_first())[0] == enc_setting(vs.drop_first()[0])[0]);
            }
        }
        assert(t1[0] == '{');
        lemma_skip_ws_clean(t1);
        assert(t1.len() < s.len());
        assert(forall|i: int|
            0 <= i < vs.drop_first().len() ==> valid_order(#[trigger] vs.drop_first()[i]));
        lemma_elements_round(vs.drop_first(), rest);
        assert(parse_elements(t1) == Some((vs.drop_first(), rest)));
        assert(seq![vs[0]] + vs.drop_first() =~= vs);
    }
}

/// An encoded entry starts with its opening brace.
proof fn lemma_enc_setting_nonempty(v: SettingView)
    ensures
        enc_setting(v).len() > 0,
        enc_setting(v)[0] == '{',
{
}

/// Law: the whole collection survives the persisted form. For any sequence
/// of entries whose order values the machine can hold, decoding the encoded
/// text yields the same entries, in the same order, field for field.
pub proof fn lemma_round_trip(vs: Seq<SettingView>)
    requires
        forall|i: int| 0 <= i < vs.len() ==> valid_order(#[trigger] vs[i]),
    ensures
        spec_parse(spec_encode(vs)) == Some(vs),
{
    let s = spec_encode(vs);
    assert(s[0] == '[');
    assert(!is_ws('['));
    lemma_skip_ws_clean(s);
    if vs.len() == 0 {
        assert(enc_elements(vs) == Seq::<char>::empty());
        assert(s.drop_first() =~= seq![']']);
        lemma_skip_ws_clean(seq![']']);
        assert(seq![']'][0] == ']');
        assert(seq![']'].drop_first() =~= Seq::<char>::empty());
        assert(skip_ws(Seq::<char>::empty()).len() == 0);
        assert(spec_parse(s) == Some(Seq::<SettingView>::empty()));
        assert(Seq::<SettingView>::empty() =~= vs);
    } else {
        let t = enc_elements(vs) + seq![']'] + Seq::<char>::empty();
        assert(s.drop_first() =~= t);
        lemma_enc_setting_nonempty(vs[0]);
        assert(enc_elements(vs)[0] == enc_setting(vs[0])[0]) by {
            if vs.len() == 1 {
            }
        }
        assert(t[0] == '{');
        lemma_skip_ws_clean(t);
        lemma_elements_round(vs, Seq::<char>::empty());
        assert(parse_elements(t) == Some((vs, Seq::<char>::empty())));
        assert(skip_ws(Seq::<char>::empty()).len() == 0);
    }
}

} // verus!
