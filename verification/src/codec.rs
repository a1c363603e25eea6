//! The persisted form of the settings collection: a JSON array of objects,
//! one per entry, in a stable, versionless schema.
//!
//! The encoder is specified character by character, and the decoder against
//! a specification-level parser of the same text; parsing back what the
//! encoder wrote reproduces the collection exactly (the laws stand in
//! `codec_laws`). The decoder also tolerates whitespace between tokens and
//! any order of an object's keys, so files written by earlier versions of
//! the tracker read back unchanged.

use vstd::prelude::*;
use vstd::string::StringExecFns;
use crate::Error;
use crate::repo::{GitProvider, Repo, RepoView};
use crate::settings::{Setting, SettingView};
use crate::store::{views_of, unique_ids, SettingsStore};

verus! {

// ---------------------------------------------------------------------------
// The encoded form, character by character.
// ---------------------------------------------------------------------------

/// The characters a string's character is written as: a quote and a
/// backslash are escaped, everything else stands for itself.
pub open spec fn escape_char(c: char) -> Seq<char> {
    if c == '"' {
        seq!['\\', '"']
    } else if c == '\\' {
        seq!['\\', '\\']
    } else {
        seq![c]
    }
}

/// A string's characters in escaped form.
pub open spec fn escape_chars(s: Seq<char>) -> Seq<char>
    decreases s.len(),
{
    if s.len() == 0 {
        Seq::empty()
    } else {
        escape_char(s[0]) + escape_chars(s.drop_first())
    }
}

/// A string value: its escaped characters between quotes.
pub open spec fn enc_string(s: Seq<char>) -> Seq<char> {
    seq!['"'] + escape_chars(s) + seq!['"']
}

/// The character for one decimal digit.
pub open spec fn digit_char(d: int) -> char {
    if d == 0 {
        '0'
    } else if d == 1 {
        '1'
    } else if d == 2 {
        '2'
    } else if d == 3 {
        '3'
    } else if d == 4 {
        '4'
    } else if d == 5 {
        '5'
    } else if d == 6 {
        '6'
    } else if d == 7 {
        '7'
    } else if d == 8 {
        '8'
    } else {
        '9'
    }
}

/// The value of one decimal digit character, or -1 for any other character.
pub open spec fn digit_val(c: char) -> int {
    if c == '0' {
        0
    } else if c == '1' {
        1
    } else if c == '2' {
        2
    } else if c == '3' {
        3
    } else if c == '4' {
        4
    } else if c == '5' {
        5
    } else if c == '6' {
        6
    } else if c == '7' {
        7
    } else if c == '8' {
        8
    } else if c == '9' {
        9
    } else {
        -1
    }
}

pub open spec fn is_digit(c: char) -> bool {
    digit_val(c) >= 0
}

/// A number in decimal, most significant digit first, no leading zero
/// except for zero itself.
pub open spec fn dec_digits(n: nat) -> Seq<char>
    decreases n,
{
    if n <= 9 {
        seq![digit_char(n as int)]
    } else {
        dec_digits(n / 10) + seq![digit_char((n % 10) as int)]
    }
}

pub open spec fn enc_bool(b: bool) -> Seq<char> {
    if b {
        seq!['t', 'r', 'u', 'e']
    } else {
        seq!['f', 'a', 'l', 's', 'e']
    }
}

/// The provider tag's name.
pub open spec fn provider_name(g: GitProvider) -> Seq<char> {
    match g {
        GitProvider::GitHub => seq!['G', 'i', 't', 'H', 'u', 'b'],
        GitProvider::GitLab => seq!['G', 'i', 't', 'L', 'a', 'b'],
    }
}

pub open spec fn key_git_type() -> Seq<char> {
    seq!['g', 'i', 't', '_', 't', 'y', 'p', 'e']
}

pub open spec fn key_owner() -> Seq<char> {
    seq!['o', 'w', 'n', 'e', 'r']
}

pub open spec fn key_name() -> Seq<char> {
    seq!['n', 'a', 'm', 'e']
}

pub open spec fn key_id() -> Seq<char> {
    seq!['i', 'd']
}

pub open spec fn key_order() -> Seq<char> {
    seq!['o', 'r', 'd', 'e', 'r']
}

pub open spec fn key_favourite() -> Seq<char> {
    seq!['f', 'a', 'v', 'o', 'u', 'r', 'i', 't', 'e']
}

/// A repository identity as an object of its three fields.
pub open spec fn enc_repo(r: RepoView) -> Seq<char> {
    seq!['{'] + enc_string(key_git_type()) + seq![':'] + enc_string(provider_name(r.git_type))
        + seq![','] + enc_string(key_owner()) + seq![':'] + enc_string(r.owner) + seq![',']
        + enc_string(key_name()) + seq![':'] + enc_string(r.name) + seq!['}']
}

/// One entry as an object of its four fields.
pub open spec fn enc_setting(v: SettingView) -> Seq<char> {
    seq!['{'] + enc_string(key_id()) + seq![':'] + enc_string(v.id) + seq![','] + enc_string(
        key_order(),
    ) + seq![':'] + dec_digits(if v.order >= 0 {
        v.order as nat
    } else {
        0
    }) + seq![','] + enc_string(key_favourite()) + seq![':'] + enc_bool(v.favourite) + seq![',']
        + enc_string(key_repo()) + seq![':'] + enc_repo(v.repo) + seq!['}']
}

pub open spec fn key_repo() -> Seq<char> {
    seq!['r', 'e', 'p', 'o']
}

/// The entries, comma-separated.
pub open spec fn enc_elements(vs: Seq<SettingView>) -> Seq<char>
    decreases vs.len(),
{
    if vs.len() == 0 {
        Seq::empty()
    } else if vs.len() == 1 {
        enc_setting(vs[0])
    } else {
        enc_setting(vs[0]) + seq![','] + enc_elements(vs.drop_first())
    }
}

/// The whole persisted text: the entries between brackets.
pub open spec fn spec_encode(vs: Seq<SettingView>) -> Seq<char> {
    seq!['['] + enc_elements(vs) + seq![']']
}

// ---------------------------------------------------------------------------
// The encoder.
// ---------------------------------------------------------------------------

/// Relies on `String::push`: appends the given character to the end of the
/// string.
#[verifier::external_body]
fn push_char(s: &mut String, c: char)
    ensures
        final(s)@ == old(s)@ + seq![c],
{
    s.push(c);
}

/// Appends the decimal form of `n`.
fn push_number(out: &mut String, n: usize)
    ensures
        final(out)@ == old(out)@ + dec_digits(n as nat),
    decreases n,
{
    if n <= 9 {
        push_char(out, digit_of(n));
    } else {
        push_number(out, n / 10);
        push_char(out, digit_of(n % 10));
        proof {
            assert(out@ =~= old(out)@ + dec_digits(n as nat));
        }
    }
}

/// The character for a digit.
fn digit_of(d: usize) -> (c: char)
    requires
        d <= 9,
    ensures
        c == digit_char(d as int),
{
    match d {
        0 => '0',
        1 => '1',
        2 => '2',
        3 => '3',
        4 => '4',
        5 => '5',
        6 => '6',
        7 => '7',
        8 => '8',
        _ => '9',
    }
}

/// Appends a string value: quoted, with quotes and backslashes escaped.
fn push_string(out: &mut String, v: &String)
    ensures
        final(out)@ == old(out)@ + enc_string(v@),
{
    push_char(out, '"');
    let n = v.as_str().unicode_len();
    let mut i: usize = 0;
    while i < n
        invariant
            n == v@.len(),
            0 <= i <= n,
            out@ == old(out)@ + seq!['"'] + escape_chars(v@.take(i as int)),
        decreases n - i,
    {
        let c = v.as_str().get_char(i);
        if c == '"' || c == '\\' {
            push_char(out, '\\');
            push_char(out, c);
        } else {
            push_char(out, c);
        }
        proof {
            lemma_escape_chars_snoc(v@.take(i as int), v@[i as int]);
            assert(v@.take((i + 1) as int) =~= v@.take(i as int).push(v@[i as int]));
            assert(out@ =~= old(out)@ + seq!['"'] + escape_chars(v@.take((i + 1) as int)));
        }
        i = i + 1;
    }
    push_char(out, '"');
    proof {
        assert(v@.take(n as int) =~= v@);
        assert(out@ =~= old(out)@ + enc_string(v@));
    }
}

/// Escaping one more character appends that character's escaped form.
proof fn lemma_escape_chars_snoc(s: Seq<char>, c: char)
    ensures
        escape_chars(s.push(c)) == escape_chars(s) + escape_char(c),
    decreases s.len(),
{
    if s.len() == 0 {
        assert(s.push(c)[0] == c);
        assert(s.push(c).drop_first() =~= Seq::<char>::empty());
        assert(escape_chars(Seq::<char>::empty()) == Seq::<char>::empty());
        assert(escape_chars(s) == Seq::<char>::empty());
        assert(escape_chars(s.push(c)) == escape_char(c) + escape_chars(s.push(c).drop_first()));
        assert(escape_chars(s.push(c)) =~= escape_chars(s) + escape_char(c));
    } else {
        assert(s.push(c).drop_first() =~= s.drop_first().push(c));
        lemma_escape_chars_snoc(s.drop_first(), c);
        assert(s.push(c)[0] == s[0]);
        assert(escape_chars(s.push(c)) == escape_char(s[0]) + escape_chars(s.drop_first().push(c)));
        assert(escape_chars(s.drop_first().push(c)) == escape_chars(s.drop_first()) + escape_char(
            c,
        ));
        assert(escape_char(s[0]) + (escape_chars(s.drop_first()) + escape_char(c)) =~= (escape_char(
            s[0],
        ) + escape_chars(s.drop_first())) + escape_char(c));
    }
}

/// Appends one entry in its persisted form.
#[verifier::rlimit(100)]
fn push_setting(out: &mut String, s: &Setting)
    ensures
        final(out)@ == old(out)@ + enc_setting(s@),
{
    push_char(out, '{');
    push_string(out, &id_key());
    push_char(out, ':');
    push_string(out, s.id());
    push_char(out, ',');
    push_string(out, &order_key());
    push_char(out, ':');
    push_number(out, s.order());
    push_char(out, ',');
    push_string(out, &favourite_key());
    push_char(out, ':');
    push_bool(out, s.favourite());
    push_char(out, ',');
    push_string(out, &repo_key());
    push_char(out, ':');
    push_repo(out, s.repo());
    push_char(out, '}');
    proof {
        assert(out@ =~= old(out)@ + enc_setting(s@));
    }
}

/// Appends a repository identity in its persisted form.
#[verifier::rlimit(100)]
fn push_repo(out: &mut String, r: &Repo)
    ensures
        final(out)@ == old(out)@ + enc_repo(r@),
{
    push_char(out, '{');
    push_string(out, &git_type_key());
    push_char(out, ':');
    match r.git_type() {
        GitProvider::GitHub => push_string(out, &github_name()),
        GitProvider::GitLab => push_string(out, &gitlab_name()),
    }
    push_char(out, ',');
    push_string(out, &owner_key());
    push_char(out, ':');
    push_string(out, r.owner());
    push_char(out, ',');
    push_string(out, &name_key());
    push_char(out, ':');
    push_string(out, r.name());
    push_char(out, '}');
    proof {
        assert(out@ =~= old(out)@ + enc_repo(r@));
    }
}

fn push_bool(out: &mut String, b: bool)
    ensures
        final(out)@ == old(out)@ + enc_bool(b),
{
    if b {
        out.append("true");
        proof {
            reveal_strlit("true");
            assert(out@ =~= old(out)@ + enc_bool(b));
        }
    } else {
        out.append("false");
        proof {
            reveal_strlit("false");
            assert(out@ =~= old(out)@ + enc_bool(b));
        }
    }
}

fn id_key() -> (r: String)
    ensures
        r@ == key_id(),
{
    let r = String::from_str("id");
    proof {
        reveal_strlit("id");
        assert(r@ =~= key_id());
    }
    r
}

fn order_key() -> (r: String)
    ensures
        r@ == key_order(),
{
    let r = String::from_str("order");
    proof {
        reveal_strlit("order");
        assert(r@ =~= key_order());
    }
    r
}

fn favourite_key() -> (r: String)
    ensures
        r@ == key_favourite(),
{
    let r = String::from_str("favourite");
    proof {
        reveal_strlit("favourite");
        assert(r@ =~= key_favourite());
    }
    r
}

fn repo_key() -> (r: String)
    ensures
        r@ == key_repo(),
{
    let r = String::from_str("repo");
    proof {
        reveal_strlit("repo");
        assert(r@ =~= key_repo());
    }
    r
}

fn git_type_key() -> (r: String)
    ensures
        r@ == key_git_type(),
{
    let r = String::from_str("git_type");
    proof {
        reveal_strlit("git_type");
        assert(r@ =~= key_git_type());
    }
    r
}

fn github_name() -> (r: String)
    ensures
        r@ == provider_name(GitProvider::GitHub),
{
    let r = String::from_str("GitHub");
    proof {
        reveal_strlit("GitHub");
        assert(r@ =~= provider_name(GitProvider::GitHub));
    }
    r
}

fn gitlab_name() -> (r: String)
    ensures
        r@ == provider_name(GitProvider::GitLab),
{
    let r = String::from_str("GitLab");
    proof {
        reveal_strlit("GitLab");
        assert(r@ =~= provider_name(GitProvider::GitLab));
    }
    r
}

fn owner_key() -> (r: String)
    ensures
        r@ == key_owner(),
{
    let r = String::from_str("owner");
    proof {
        reveal_strlit("owner");
        assert(r@ =~= key_owner());
    }
    r
}

fn name_key() -> (r: String)
    ensures
        r@ == key_name(),
{
    let r = String::from_str("name");
    proof {
        reveal_strlit("name");
        assert(r@ =~= key_name());
    }
    r
}

/// Writes the collection in its persisted form: a JSON array of one object
/// per entry, in the collection's order.
#[verifier::rlimit(100)]
pub fn encode(settings: &Vec<Setting>) -> (r: String)
    ensures
        r@ == spec_encode(views_of(settings@)),
{
    let mut out = String::new();
    push_char(&mut out, '[');
    let n = settings.len();
    let mut i: usize = 0;
    while i < n
        invariant
            n == settings@.len(),
            0 <= i <= n,
            out@ == seq!['['] + enc_elements(views_of(settings@).take(i as int)) + (
            if 0 < i < n {
                seq![',']
            } else {
                Seq::<char>::empty()
            }),
        decreases n - i,
    {
        let ghost done = views_of(settings@).take(i as int);
        push_setting(&mut out, &settings[i]);
        if i + 1 < n {
            push_char(&mut out, ',');
        }
        proof {
            assert(views_of(settings@).take((i + 1) as int) =~= done.push(
                views_of(settings@)[i as int],
            ));
            lemma_enc_elements_snoc(done, views_of(settings@)[i as int]);
            assert(out@ =~= seq!['['] + enc_elements(views_of(settings@).take((i + 1) as int)) + (
            if 0 < i + 1 < n {
                seq![',']
            } else {
                Seq::<char>::empty()
            }));
        }
        i = i + 1;
    }
    push_char(&mut out, ']');
    proof {
        assert(views_of(settings@).take(n as int) =~= views_of(settings@));
        assert(out@ =~= spec_encode(views_of(settings@)));
    }
    out
}

// ---------------------------------------------------------------------------
// The specification-level parser: what texts decode, and to what.
// ---------------------------------------------------------------------------

pub open spec fn is_ws(c: char) -> bool {
    c == ' ' || c == '\n' || c == '\t' || c == '\r'
}

/// The text without its leading whitespace.
pub open spec fn skip_ws(s: Seq<char>) -> Seq<char>
    decreases s.len(),
{
    if s.len() > 0 && is_ws(s[0]) {
        skip_ws(s.drop_first())
    } else {
        s
    }
}

/// The character an escape sequence stands for, or `None` for an escape the
/// format does not know.
pub open spec fn unescape_char(c: char) -> Option<char> {
    if c == '"' {
        Some('"')
    } else if c == '\\' {
        Some('\\')
    } else if c == '/' {
        Some('/')
    } else if c == 'n' {
        Some('\n')
    } else if c == 't' {
        Some('\t')
    } else if c == 'r' {
        Some('\r')
    } else {
        None
    }
}

/// The characters of a string value up to its closing quote, unescaped, and
/// the rest of the text.
pub open spec fn parse_string_body(s: Seq<char>) -> Option<(Seq<char>, Seq<char>)>
    decreases s.len(),
{
    if s.len() == 0 {
        None
    } else if s[0] == '"' {
        Some((Seq::empty(), s.drop_first()))
    } else if s[0] == '\\' {
        if s.len() < 2 {
            None
        } else {
            match unescape_char(s[1]) {
                Some(c) => match parse_string_body(s.skip(2)) {
                    Some(p) => Some((seq![c] + p.0, p.1)),
                    None => None,
                },
                None => None,
            }
        }
    } else {
        match parse_string_body(s.drop_first()) {
            Some(p) => Some((seq![s[0]] + p.0, p.1)),
            None => None,
        }
    }
}

/// A string value: a quote, its characters, a closing quote.
pub open spec fn parse_string(s: Seq<char>) -> Option<(Seq<char>, Seq<char>)> {
    if s.len() > 0 && s[0] == '"' {
        parse_string_body(s.drop_first())
    } else {
        None
    }
}

/// The digits read so far folded into a value, then the rest of the text.
pub open spec fn parse_digits(s: Seq<char>, acc: int) -> (int, Seq<char>)
    decreases s.len(),
{
    if s.len() > 0 && is_digit(s[0]) {
        parse_digits(s.drop_first(), acc * 10 + digit_val(s[0]))
    } else {
        (acc, s)
    }
}

/// A number: a non-empty run of digits whose value fits the machine.
pub open spec fn parse_number(s: Seq<char>) -> Option<(int, Seq<char>)> {
    if s.len() > 0 && is_digit(s[0]) {
        let r = parse_digits(s, 0);
        if r.0 <= usize::MAX as int {
            Some(r)
        } else {
            None
        }
    } else {
        None
    }
}

pub open spec fn starts_with(s: Seq<char>, p: Seq<char>) -> bool {
    p.len() <= s.len() && s.take(p.len() as int) == p
}

pub open spec fn parse_bool(s: Seq<char>) -> Option<(bool, Seq<char>)> {
    if starts_with(s, enc_bool(true)) {
        Some((true, s.skip(4)))
    } else if starts_with(s, enc_bool(false)) {
        Some((false, s.skip(5)))
    } else {
        None
    }
}

/// A provider tag: one of the two provider names as a string value.
pub open spec fn parse_provider(s: Seq<char>) -> Option<(GitProvider, Seq<char>)> {
    match parse_string(s) {
        Some(p) => if p.0 == provider_name(GitProvider::GitHub) {
            Some((GitProvider::GitHub, p.1))
        } else if p.0 == provider_name(GitProvider::GitLab) {
            Some((GitProvider::GitLab, p.1))
        } else {
            None
        },
        None => None,
    }
}

/// The fields of a repository object seen so far.
pub struct RepoParts {
    pub git_type: Option<GitProvider>,
    pub owner: Option<Seq<char>>,
    pub name: Option<Seq<char>>,
}

/// The members of a repository object from the first key onwards: keys in
/// any order, each at most once, all three present at the closing brace.
pub open spec fn parse_repo_fields(s: Seq<char>, acc: RepoParts) -> Option<(RepoView, Seq<char>)>
    decreases s.len(),
{
    match parse_string(s) {
        None => None,
        Some(kp) => {
            let s1 = skip_ws(kp.1);
            if s1.len() == 0 || s1[0] != ':' {
                None
            } else {
                let s2 = skip_ws(s1.drop_first());
                let stepped: Option<(RepoParts, Seq<char>)> = if kp.0 == key_git_type() {
                    if acc.git_type is Some {
                        None
                    } else {
                        match parse_provider(s2) {
                            Some(vp) => Some((RepoParts { git_type: Some(vp.0), ..acc }, vp.1)),
                            None => None,
                        }
                    }
                } else if kp.0 == key_owner() {
                    if acc.owner is Some {
                        None
                    } else {
                        match parse_string(s2) {
                            Some(vp) => Some((RepoParts { owner: Some(vp.0), ..acc }, vp.1)),
                            None => None,
                        }
                    }
                } else if kp.0 == key_name() {
                    if acc.name is Some {
                        None
                    } else {
                        match parse_string(s2) {
                            Some(vp) => Some((RepoParts { name: Some(vp.0), ..acc }, vp.1)),
                            None => None,
                        }
                    }
                } else {
                    None
                };
                match stepped {
                    None => None,
                    Some(st) => {
                        let s3 = skip_ws(st.1);
                        if s3.len() == 0 {
                            None
                        } else if s3[0] == ',' {
                            let s4 = skip_ws(s3.drop_first());
                            if s4.len() < s.len() {
                                parse_repo_fields(s4, st.0)
                            } else {
                                None
                            }
                        } else if s3[0] == '}' {
                            match (st.0.git_type, st.0.owner, st.0.name) {
                                (Some(g), Some(o), Some(n)) => Some(
                                    (RepoView { git_type: g, owner: o, name: n }, s3.drop_first()),
                                ),
                                _ => None,
                            }
                        } else {
                            None
                        }
                    },
                }
            }
        },
    }
}

/// A repository object.
pub open spec fn parse_repo(s: Seq<char>) -> Option<(RepoView, Seq<char>)> {
    if s.len() > 0 && s[0] == '{' {
        parse_repo_fields(
            skip_ws(s.drop_first()),
            RepoParts { git_type: None, owner: None, name: None },
        )
    } else {
        None
    }
}

/// The fields of an entry object seen so far.
pub struct SettingParts {
    pub id: Option<Seq<char>>,
    pub order: Option<int>,
    pub favourite: Option<bool>,
    pub repo: Option<RepoView>,
}

/// The members of an entry object from the first key onwards: keys in any
/// order, each at most once, all four present at the closing brace.
pub open spec fn parse_setting_fields(s: Seq<char>, acc: SettingParts) -> Option<
    (SettingView, Seq<char>),
>
    decreases s.len(),
{
    match parse_string(s) {
        None => None,
        Some(kp) => {
            let s1 = skip_ws(kp.1);
            if s1.len() == 0 || s1[0] != ':' {
                None
            } else {
                let s2 = skip_ws(s1.drop_first());
                let stepped: Option<(SettingParts, Seq<char>)> = if kp.0 == key_id() {
                    if acc.id is Some {
                        None
                    } else {
                        match parse_string(s2) {
                            Some(vp) => Some((SettingParts { id: Some(vp.0), ..acc }, vp.1)),
                            None => None,
                        }
                    }
                } else if kp.0 == key_order() {
                    if acc.order is Some {
                        None
                    } else {
                        match parse_number(s2) {
                            Some(vp) => Some((SettingParts { order: Some(vp.0), ..acc }, vp.1)),
                            None => None,
                        }
                    }
                } else if kp.0 == key_favourite() {
                    if acc.favourite is Some {
                        None
                    } else {
                        match parse_bool(s2) {
                            Some(vp) => Some((SettingParts { favourite: Some(vp.0), ..acc }, vp.1)),
                            None => None,
                        }
                    }
                } else if kp.0 == key_repo() {
                    if acc.repo is Some {
                        None
                    } else {
                        match parse_repo(s2) {
                            Some(vp) => Some((SettingParts { repo: Some(vp.0), ..acc }, vp.1)),
                            None => None,
                        }
                    }
                } else {
                    None
                };
                match stepped {
                    None => None,
                    Some(st) => {
                        let s3 = skip_ws(st.1);
                        if s3.len() == 0 {
                            None
                        } else if s3[0] == ',' {
                            let s4 = skip_ws(s3.drop_first());
                            if s4.len() < s.len() {
                                parse_setting_fields(s4, st.0)
                            } else {
                                None
                            }
                        } else if s3[0] == '}' {
                            match (st.0.id, st.0.order, st.0.favourite, st.0.repo) {
                                (Some(id), Some(order), Some(favourite), Some(repo)) => Some(
                                    (SettingView { id, order, favourite, repo }, s3.drop_first()),
                                ),
                                _ => None,
                            }
                        } else {
                            None
                        }
                    },
                }
            }
        },
    }
}

/// An entry object.
pub open spec fn parse_setting(s: Seq<char>) -> Option<(SettingView, Seq<char>)> {
    if s.len() > 0 && s[0] == '{' {
        parse_setting_fields(
            skip_ws(s.drop_first()),
            SettingParts { id: None, order: None, favourite: None, repo: None },
        )
    } else {
        None
    }
}

/// The entries of a non-empty array from the first entry onwards, consuming
/// the closing bracket.
pub open spec fn parse_elements(s: Seq<char>) -> Option<(Seq<SettingView>, Seq<char>)>
    decreases s.len(),
{
    match parse_setting(s) {
        None => None,
        Some(vp) => {
            let s1 = skip_ws(vp.1);
            if s1.len() == 0 {
                None
            } else if s1[0] == ',' {
                let s2 = skip_ws(s1.drop_first());
                if s2.len() < s.len() {
                    match parse_elements(s2) {
                        Some(ep) => Some((seq![vp.0] + ep.0, ep.1)),
                        None => None,
                    }
                } else {
                    None
                }
            } else if s1[0] == ']' {
                Some((seq![vp.0], s1.drop_first()))
            } else {
                None
            }
        },
    }
}

/// The texts that decode, and the collection each decodes to: an array of
/// entry objects, with whitespace allowed between tokens and nothing but
/// whitespace after the closing bracket.
pub open spec fn spec_parse(s: Seq<char>) -> Option<Seq<SettingView>> {
    let s0 = skip_ws(s);
    if s0.len() > 0 && s0[0] == '[' {
        let s1 = skip_ws(s0.drop_first());
        if s1.len() > 0 && s1[0] == ']' {
            if skip_ws(s1.drop_first()).len() == 0 {
                Some(Seq::empty())
            } else {
                None
            }
        } else {
            match parse_elements(s1) {
                Some(ep) => if skip_ws(ep.1).len() == 0 {
                    Some(ep.0)
                } else {
                    None
                },
                None => None,
            }
        }
    } else {
        None
    }
}

/// Appending one entry to the comma-separated elements.
proof fn lemma_enc_elements_snoc(vs: Seq<SettingView>, v: SettingView)
    ensures
        vs.len() == 0 ==> enc_elements(vs.push(v)) == enc_setting(v),
        vs.len() > 0 ==> enc_elements(vs.push(v)) == enc_elements(vs) + seq![','] + enc_setting(v),
    decreases vs.len(),
{
    if vs.len() == 0 {
        assert(enc_elements(vs.push(v)) == enc_setting(vs.push(v)[0]));
        assert(vs.push(v)[0] == v);
    } else {
        assert(vs.push(v).drop_first() =~= vs.drop_first().push(v));
        lemma_enc_elements_snoc(vs.drop_first(), v);
        if vs.len() == 1 {
            assert(vs.drop_first().len() == 0);
            assert(enc_elements(vs.push(v)) =~= enc_elements(vs) + seq![','] + enc_setting(v));
        } else {
            assert(enc_elements(vs.push(v)) =~= enc_elements(vs) + seq![','] + enc_setting(v));
        }
    }
}

// ---------------------------------------------------------------------------
// The decoder.
// ---------------------------------------------------------------------------

/// The view of an optional string.
pub open spec fn opt_chars(o: Option<String>) -> Option<Seq<char>> {
    match o {
        Some(s) => Some(s@),
        None => None,
    }
}

/// The view of an optional number.
pub open spec fn opt_int(o: Option<usize>) -> Option<int> {
    match o {
        Some(n) => Some(n as int),
        None => None,
    }
}

/// The view of an optional identity.
pub open spec fn opt_repo_view(o: Option<Repo>) -> Option<RepoView> {
    match o {
        Some(r) => Some(r@),
        None => None,
    }
}

/// The characters of a text, one by one.
fn str_chars(s: &str) -> (v: Vec<char>)
    ensures
        v@ == s@,
{
    let n = s.unicode_len();
    let mut v: Vec<char> = Vec::new();
    let mut i: usize = 0;
    while i < n
        invariant
            n == s@.len(),
            0 <= i <= n,
            v@ =~= s@.take(i as int),
        decreases n - i,
    {
        v.push(s.get_char(i));
        proof {
            assert(v@ =~= s@.take((i + 1) as int));
        }
        i = i + 1;
    }
    proof {
        assert(s@.take(n as int) =~= s@);
    }
    v
}

fn is_ws_exec(c: char) -> (r: bool)
    ensures
        r == is_ws(c),
{
    c == ' ' || c == '\n' || c == '\t' || c == '\r'
}

/// The first position at or after `pos` holding a non-whitespace character.
fn scan_ws(chars: &Vec<char>, pos: usize) -> (p: usize)
    requires
        pos <= chars@.len(),
    ensures
        pos <= p <= chars@.len(),
        chars@.skip(p as int) == skip_ws(chars@.skip(pos as int)),
{
    let n = chars.len();
    let mut i: usize = pos;
    while i < n && is_ws_exec(chars[i])
        invariant
            pos <= i <= n,
            n == chars@.len(),
            skip_ws(chars@.skip(pos as int)) == skip_ws(chars@.skip(i as int)),
        decreases n - i,
    {
        proof {
            assert(chars@.skip(i as int)[0] == chars@[i as int]);
            assert(chars@.skip(i as int).drop_first() =~= chars@.skip((i + 1) as int));
        }
        i = i + 1;
    }
    proof {
        let s = chars@.skip(i as int);
        if i < n {
            assert(s[0] == chars@[i as int]);
        }
        assert(skip_ws(s) == s);
    }
    i
}

/// A new string with one character put before the given one.
fn prepend_char(c: char, s: String) -> (r: String)
    ensures
        r@ == seq![c] + s@,
{
    let mut r = String::new();
    push_char(&mut r, c);
    r.append(s.as_str());
    proof {
        assert(r@ =~= seq![c] + s@);
    }
    r
}

fn unescape_of(c: char) -> (r: Option<char>)
    ensures
        r == unescape_char(c),
{
    if c == '"' {
        Some('"')
    } else if c == '\\' {
        Some('\\')
    } else if c == '/' {
        Some('/')
    } else if c == 'n' {
        Some('\n')
    } else if c == 't' {
        Some('\t')
    } else if c == 'r' {
        Some('\r')
    } else {
        None
    }
}

/// The characters of a string value up to its closing quote, starting just
/// after the opening quote.
fn scan_string_body(chars: &Vec<char>, pos: usize) -> (r: Option<(String, usize)>)
    requires
        pos <= chars@.len(),
    ensures
        match r {
            Some(p) => pos <= p.1 <= chars@.len() && parse_string_body(chars@.skip(pos as int))
                == Some((p.0@, chars@.skip(p.1 as int))),
            None => parse_string_body(chars@.skip(pos as int)) is None,
        },
    decreases chars@.len() - pos,
{
    let ghost s = chars@.skip(pos as int);
    if pos == chars.len() {
        proof {
            assert(s.len() == 0);
        }
        return None;
    }
    let c = chars[pos];
    proof {
        assert(s[0] == c);
        assert(s.drop_first() =~= chars@.skip((pos + 1) as int));
    }
    if c == '"' {
        Some((String::new(), pos + 1))
    } else if c == '\\' {
        if pos + 1 == chars.len() {
            proof {
                assert(s.len() < 2);
            }
            return None;
        }
        let e = chars[pos + 1];
        proof {
            assert(s[1] == e);
            assert(s.skip(2) =~= chars@.skip((pos + 2) as int));
        }
        match unescape_of(e) {
            None => None,
            Some(u) => match scan_string_body(chars, pos + 2) {
                None => None,
                Some((tail, p)) => Some((prepend_char(u, tail), p)),
            },
        }
    } else {
        match scan_string_body(chars, pos + 1) {
            None => None,
            Some((tail, p)) => Some((prepend_char(c, tail), p)),
        }
    }
}

/// A string value at `pos`.
fn scan_string(chars: &Vec<char>, pos: usize) -> (r: Option<(String, usize)>)
    requires
        pos <= chars@.len(),
    ensures
        match r {
            Some(p) => pos < p.1 <= chars@.len() && parse_string(chars@.skip(pos as int)) == Some(
                (p.0@, chars@.skip(p.1 as int)),
            ),
            None => parse_string(chars@.skip(pos as int)) is None,
        },
{
    let ghost s = chars@.skip(pos as int);
    if pos == chars.len() {
        return None;
    }
    proof {
        assert(s[0] == chars@[pos as int]);
    }
    if chars[pos] != '"' {
        return None;
    }
    proof {
        assert(s.drop_first() =~= chars@.skip((pos + 1) as int));
    }
    scan_string_body(chars, pos + 1)
}

fn digit_value(c: char) -> (r: Option<usize>)
    ensures
        match r {
            Some(d) => digit_val(c) == d as int && d <= 9,
            None => digit_val(c) < 0,
        },
{
    match c {
        '0' => Some(0),
        '1' => Some(1),
        '2' => Some(2),
        '3' => Some(3),
        '4' => Some(4),
        '5' => Some(5),
        '6' => Some(6),
        '7' => Some(7),
        '8' => Some(8),
        '9' => Some(9),
        _ => None,
    }
}

/// Folding digits grows the accumulator or keeps it.
proof fn lemma_parse_digits_min(s: Seq<char>, acc: int)
    requires
        acc >= 0,
    ensures
        parse_digits(s, acc).0 >= acc,
    decreases s.len(),
{
    if s.len() > 0 && is_digit(s[0]) {
        assert(acc * 10 + digit_val(s[0]) >= acc) by (nonlinear_arith)
            requires
                acc >= 0,
                digit_val(s[0]) >= 0,
        ;
        lemma_parse_digits_min(s.drop_first(), acc * 10 + digit_val(s[0]));
    }
}

/// The run of digits from `pos`, folded onto `acc`; detects a value that
/// does not fit the machine.
fn scan_digits(chars: &Vec<char>, pos: usize, acc: usize) -> (r: Option<(usize, usize)>)
    requires
        pos <= chars@.len(),
    ensures
        match r {
            Some(p) => pos <= p.1 <= chars@.len() && parse_digits(
                chars@.skip(pos as int),
                acc as int,
            ) == (p.0 as int, chars@.skip(p.1 as int)),
            None => parse_digits(chars@.skip(pos as int), acc as int).0 > usize::MAX as int,
        },
    decreases chars@.len() - pos,
{
    let ghost s = chars@.skip(pos as int);
    if pos == chars.len() {
        proof {
            assert(s.len() == 0);
        }
        return Some((acc, pos));
    }
    proof {
        assert(s[0] == chars@[pos as int]);
        assert(s.drop_first() =~= chars@.skip((pos + 1) as int));
    }
    match digit_value(chars[pos]) {
        None => Some((acc, pos)),
        Some(d) => {
            let step = match acc.checked_mul(10) {
                Some(x) => x.checked_add(d),
                None => None,
            };
            match step {
                None => {
                    proof {
                        let acc2 = (acc as int) * 10 + (d as int);
                        assert(acc2 > usize::MAX as int);
                        lemma_parse_digits_min(chars@.skip((pos + 1) as int), acc2);
                    }
                    None
                },
                Some(a) => scan_digits(chars, pos + 1, a),
            }
        },
    }
}

/// A number at `pos`.
fn scan_number(chars: &Vec<char>, pos: usize) -> (r: Option<(usize, usize)>)
    requires
        pos <= chars@.len(),
    ensures
        match r {
            Some(p) => pos <= p.1 <= chars@.len() && parse_number(chars@.skip(pos as int)) == Some(
                (p.0 as int, chars@.skip(p.1 as int)),
            ),
            None => parse_number(chars@.skip(pos as int)) is None,
        },
{
    let ghost s = chars@.skip(pos as int);
    if pos == chars.len() {
        return None;
    }
    proof {
        assert(s[0] == chars@[pos as int]);
    }
    match digit_value(chars[pos]) {
        None => None,
        Some(_) => match scan_digits(chars, pos, 0) {
            None => None,
            Some((v, p)) => Some((v, p)),
        },
    }
}

/// A boolean literal at `pos`.
fn scan_bool(chars: &Vec<char>, pos: usize) -> (r: Option<(bool, usize)>)
    requires
        pos <= chars@.len(),
    ensures
        match r {
            Some(p) => pos < p.1 <= chars@.len() && parse_bool(chars@.skip(pos as int)) == Some(
                (p.0, chars@.skip(p.1 as int)),
            ),
            None => parse_bool(chars@.skip(pos as int)) is None,
        },
{
    let ghost s = chars@.skip(pos as int);
    let n = chars.len();
    proof {
        assert forall|k: int| 0 <= k < s.len() implies s[k] == chars@[pos + k] by {}
    }
    if n - pos >= 4 && chars[pos] == 't' && chars[pos + 1] == 'r' && chars[pos + 2] == 'u'
        && chars[pos + 3] == 'e' {
        proof {
            assert(s.take(4) =~= enc_bool(true));
            assert(s.skip(4) =~= chars@.skip((pos + 4) as int));
        }
        Some((true, pos + 4))
    } else if n - pos >= 5 && chars[pos] == 'f' && chars[pos + 1] == 'a' && chars[pos + 2] == 'l'
        && chars[pos + 3] == 's' && chars[pos + 4] == 'e' {
        proof {
            assert(s.take(5) =~= enc_bool(false));
            if starts_with(s, enc_bool(true)) {
                assert(s.take(4)[0] == s[0]);
            }
            assert(s.skip(5) =~= chars@.skip((pos + 5) as int));
        }
        Some((false, pos + 5))
    } else {
        proof {
            if starts_with(s, enc_bool(true)) {
                assert(s.take(4)[0] == s[0]);
                assert(s.take(4)[1] == s[1]);
                assert(s.take(4)[2] == s[2]);
                assert(s.take(4)[3] == s[3]);
            }
            if starts_with(s, enc_bool(false)) {
                assert(s.take(5)[0] == s[0]);
                assert(s.take(5)[1] == s[1]);
                assert(s.take(5)[2] == s[2]);
                assert(s.take(5)[3] == s[3]);
                assert(s.take(5)[4] == s[4]);
            }
        }
        None
    }
}

/// A provider tag at `pos`.
fn scan_provider(chars: &Vec<char>, pos: usize) -> (r: Option<(GitProvider, usize)>)
    requires
        pos <= chars@.len(),
    ensures
        match r {
            Some(p) => pos < p.1 <= chars@.len() && parse_provider(chars@.skip(pos as int))
                == Some((p.0, chars@.skip(p.1 as int))),
            None => parse_provider(chars@.skip(pos as int)) is None,
        },
{
    match scan_string(chars, pos) {
        None => None,
        Some((v, p)) => {
            if crate::store::eq_string(&v, &github_name()) {
                Some((GitProvider::GitHub, p))
            } else if crate::store::eq_string(&v, &gitlab_name()) {
                Some((GitProvider::GitLab, p))
            } else {
                None
            }
        },
    }
}

/// The members of a repository object from the key at `pos` onwards.
#[verifier::rlimit(100)]
fn scan_repo_fields(
    chars: &Vec<char>,
    pos: usize,
    gt: Option<GitProvider>,
    ow: Option<String>,
    nm: Option<String>,
) -> (r: Option<(Repo, usize)>)
    requires
        pos <= chars@.len(),
    ensures
        ({
            let acc = RepoParts { git_type: gt, owner: opt_chars(ow), name: opt_chars(nm) };
            match r {
                Some(p) => pos < p.1 <= chars@.len() && parse_repo_fields(
                    chars@.skip(pos as int),
                    acc,
                ) == Some((p.0@, chars@.skip(p.1 as int))),
                None => parse_repo_fields(chars@.skip(pos as int), acc) is None,
            }
        }),
    decreases chars@.len() - pos,
{
    let ghost s = chars@.skip(pos as int);
    let ghost acc = RepoParts { git_type: gt, owner: opt_chars(ow), name: opt_chars(nm) };
    let (key, pk) = match scan_string(chars, pos) {
        None => {
            return None;
        },
        Some(k) => k,
    };
    let pc = scan_ws(chars, pk);
    if pc == chars.len() {
        return None;
    }
    proof {
        assert(chars@.skip(pc as int)[0] == chars@[pc as int]);
    }
    if chars[pc] != ':' {
        return None;
    }
    proof {
        assert(chars@.skip(pc as int).drop_first() =~= chars@.skip((pc + 1) as int));
    }
    let pv0 = scan_ws(chars, pc + 1);
    let mut gt2 = gt;
    let mut ow2 = ow;
    let mut nm2 = nm;
    let pv: usize;
    if crate::store::eq_string(&key, &git_type_key()) {
        if gt2.is_some() {
            return None;
        }
        match scan_provider(chars, pv0) {
            None => {
                return None;
            },
            Some((g, p)) => {
                gt2 = Some(g);
                pv = p;
            },
        }
    } else if crate::store::eq_string(&key, &owner_key()) {
        if ow2.is_some() {
            return None;
        }
        match scan_string(chars, pv0) {
            None => {
                return None;
            },
            Some((v, p)) => {
                ow2 = Some(v);
                pv = p;
            },
        }
    } else if crate::store::eq_string(&key, &name_key()) {
        if nm2.is_some() {
            return None;
        }
        match scan_string(chars, pv0) {
            None => {
                return None;
            },
            Some((v, p)) => {
                nm2 = Some(v);
                pv = p;
            },
        }
    } else {
        return None;
    }
    let ghost acc2 = RepoParts { git_type: gt2, owner: opt_chars(ow2), name: opt_chars(nm2) };
    let pw = scan_ws(chars, pv);
    if pw == chars.len() {
        return None;
    }
    proof {
        assert(chars@.skip(pw as int)[0] == chars@[pw as int]);
        assert(chars@.skip(pw as int).drop_first() =~= chars@.skip((pw + 1) as int));
    }
    if chars[pw] == ',' {
        let p4 = scan_ws(chars, pw + 1);
        proof {
            assert(chars@.skip(p4 as int).len() < s.len());
        }
        scan_repo_fields(chars, p4, gt2, ow2, nm2)
    } else if chars[pw] == '}' {
        match (gt2, ow2, nm2) {
            (Some(g), Some(o), Some(m)) => Some((Repo::from_parts(g, o, m), pw + 1)),
            _ => None,
        }
    } else {
        None
    }
}

/// A repository object at `pos`.
fn scan_repo(chars: &Vec<char>, pos: usize) -> (r: Option<(Repo, usize)>)
    requires
        pos <= chars@.len(),
    ensures
        match r {
            Some(p) => pos < p.1 <= chars@.len() && parse_repo(chars@.skip(pos as int)) == Some(
                (p.0@, chars@.skip(p.1 as int)),
            ),
            None => parse_repo(chars@.skip(pos as int)) is None,
        },
{
    let ghost s = chars@.skip(pos as int);
    if pos == chars.len() {
        return None;
    }
    proof {
        assert(s[0] == chars@[pos as int]);
    }
    if chars[pos] != '{' {
        return None;
    }
    proof {
        assert(s.drop_first() =~= chars@.skip((pos + 1) as int));
    }
    let p1 = scan_ws(chars, pos + 1);
    scan_repo_fields(chars, p1, None, None, None)
}

/// The members of an entry object from the key at `pos` onwards.
#[verifier::rlimit(100)]
fn scan_setting_fields(
    chars: &Vec<char>,
    pos: usize,
    id: Option<String>,
    order: Option<usize>,
    favourite: Option<bool>,
    repo: Option<Repo>,
) -> (r: Option<(Setting, usize)>)
    requires
        pos <= chars@.len(),
    ensures
        ({
            let acc = SettingParts {
                id: opt_chars(id),
                order: opt_int(order),
                favourite,
                repo: opt_repo_view(repo),
            };
            match r {
                Some(p) => pos < p.1 <= chars@.len() && parse_setting_fields(
                    chars@.skip(pos as int),
                    acc,
                ) == Some((p.0@, chars@.skip(p.1 as int))),
                None => parse_setting_fields(chars@.skip(pos as int), acc) is None,
            }
        }),
    decreases chars@.len() - pos,
{
    let ghost s = chars@.skip(pos as int);
    let (key, pk) = match scan_string(chars, pos) {
        None => {
            return None;
        },
        Some(k) => k,
    };
    let pc = scan_ws(chars, pk);
    if pc == chars.len() {
        return None;
    }
    proof {
        assert(chars@.skip(pc as int)[0] == chars@[pc as int]);
    }
    if chars[pc] != ':' {
        return None;
    }
    proof {
        assert(chars@.skip(pc as int).drop_first() =~= chars@.skip((pc + 1) as int));
    }
    let pv0 = scan_ws(chars, pc + 1);
    let mut id2 = id;
    let mut order2 = order;
    let mut favourite2 = favourite;
    let mut repo2 = repo;
    let pv: usize;
    if crate::store::eq_string(&key, &id_key()) {
        if id2.is_some() {
            return None;
        }
        match scan_string(chars, pv0) {
            None => {
                return None;
            },
            Some((v, p)) => {
                id2 = Some(v);
                pv = p;
            },
        }
    } else if crate::store::eq_string(&key, &order_key()) {
        if order2.is_some() {
            return None;
        }
        match scan_number(chars, pv0) {
            None => {
                return None;
            },
            Some((v, p)) => {
                order2 = Some(v);
                pv = p;
            },
        }
    } else if crate::store::eq_string(&key, &favourite_key()) {
        if favourite2.is_some() {
            return None;
        }
        match scan_bool(chars, pv0) {
            None => {
                return None;
            },
            Some((v, p)) => {
                favourite2 = Some(v);
                pv = p;
            },
        }
    } else if crate::store::eq_string(&key, &repo_key()) {
        if repo2.is_some() {
            return None;
        }
        match scan_repo(chars, pv0) {
            None => {
                return None;
            },
            Some((v, p)) => {
                repo2 = Some(v);
                pv = p;
            },
        }
    } else {
        return None;
    }
    let pw = scan_ws(chars, pv);
    if pw == chars.len() {
        return None;
    }
    proof {
        assert(chars@.skip(pw as int)[0] == chars@[pw as int]);
        assert(chars@.skip(pw as int).drop_first() =~= chars@.skip((pw + 1) as int));
    }
    if chars[pw] == ',' {
        let p4 = scan_ws(chars, pw + 1);
        proof {
            assert(chars@.skip(p4 as int).len() < s.len());
        }
        scan_setting_fields(chars, p4, id2, order2, favourite2, repo2)
    } else if chars[pw] == '}' {
        match (id2, order2, favourite2, repo2) {
            (Some(i), Some(o), Some(f), Some(rp)) => Some((Setting::from_parts(i, o, f, rp), pw + 1)),
            _ => None,
        }
    } else {
        None
    }
}

/// An entry object at `pos`.
fn scan_setting(chars: &Vec<char>, pos: usize) -> (r: Option<(Setting, usize)>)
    requires
        pos <= chars@.len(),
    ensures
        match r {
            Some(p) => pos < p.1 <= chars@.len() && parse_setting(chars@.skip(pos as int)) == Some(
                (p.0@, chars@.skip(p.1 as int)),
            ),
            None => parse_setting(chars@.skip(pos as int)) is None,
        },
{
    let ghost s = chars@.skip(pos as int);
    if pos == chars.len() {
        return None;
    }
    proof {
        assert(s[0] == chars@[pos as int]);
    }
    if chars[pos] != '{' {
        return None;
    }
    proof {
        assert(s.drop_first() =~= chars@.skip((pos + 1) as int));
    }
    let p1 = scan_ws(chars, pos + 1);
    scan_setting_fields(chars, p1, None, None, None, None)
}

/// The entries of a non-empty array, from the first entry at `pos` through
/// the closing bracket.
fn scan_elements(chars: &Vec<char>, pos: usize) -> (r: Option<(Vec<Setting>, usize)>)
    requires
        pos <= chars@.len(),
    ensures
        match r {
            Some(p) => pos < p.1 <= chars@.len() && parse_elements(chars@.skip(pos as int))
                == Some((views_of(p.0@), chars@.skip(p.1 as int))),
            None => parse_elements(chars@.skip(pos as int)) is None,
        },
    decreases chars@.len() - pos,
{
    let ghost s = chars@.skip(pos as int);
    let (v, pv) = match scan_setting(chars, pos) {
        None => {
            return None;
        },
        Some(x) => x,
    };
    let pw = scan_ws(chars, pv);
    if pw == chars.len() {
        return None;
    }
    proof {
        assert(chars@.skip(pw as int)[0] == chars@[pw as int]);
        assert(chars@.skip(pw as int).drop_first() =~= chars@.skip((pw + 1) as int));
    }
    if chars[pw] == ',' {
        let p2 = scan_ws(chars, pw + 1);
        proof {
            assert(chars@.skip(p2 as int).len() < s.len());
        }
        match scan_elements(chars, p2) {
            None => None,
            Some((rest, pe)) => {
                let ghost pre = views_of(rest@);
                let mut rest = rest;
                rest.insert(0, v);
                proof {
                    assert(views_of(rest@) =~= seq![v@] + pre);
                }
                Some((rest, pe))
            },
        }
    } else if chars[pw] == ']' {
        let mut one: Vec<Setting> = Vec::new();
        one.push(v);
        proof {
            assert(views_of(one@) =~= seq![v@]);
        }
        Some((one, pw + 1))
    } else {
        None
    }
}

/// Reads a persisted text back into entries. Exactly the texts the
/// specification-level parser accepts decode, to exactly the entries it
/// names; anything else is a serialization error.
pub fn decode(data: &str) -> (r: Result<Vec<Setting>, Error>)
    ensures
        match spec_parse(data@) {
            Some(vs) => r is Ok && views_of(r->Ok_0@) == vs,
            None => r == Err::<Vec<Setting>, Error>(Error::SerializationError),
        },
{
    let chars = str_chars(data);
    proof {
        assert(chars@.skip(0) =~= data@);
    }
    let p0 = scan_ws(&chars, 0);
    if p0 == chars.len() {
        return Err(Error::SerializationError);
    }
    proof {
        assert(chars@.skip(p0 as int)[0] == chars@[p0 as int]);
    }
    if chars[p0] != '[' {
        return Err(Error::SerializationError);
    }
    proof {
        assert(chars@.skip(p0 as int).drop_first() =~= chars@.skip((p0 + 1) as int));
    }
    let p1 = scan_ws(&chars, p0 + 1);
    if p1 < chars.len() && chars[p1] == ']' {
        proof {
            assert(chars@.skip(p1 as int)[0] == chars@[p1 as int]);
            assert(chars@.skip(p1 as int).drop_first() =~= chars@.skip((p1 + 1) as int));
        }
        let p2 = scan_ws(&chars, p1 + 1);
        if p2 == chars.len() {
            let empty: Vec<Setting> = Vec::new();
            proof {
                assert(views_of(empty@) =~= Seq::<SettingView>::empty());
            }
            return Ok(empty);
        } else {
            return Err(Error::SerializationError);
        }
    }
    proof {
        if p1 < chars@.len() {
            assert(chars@.skip(p1 as int)[0] == chars@[p1 as int]);
        }
    }
    match scan_elements(&chars, p1) {
        None => Err(Error::SerializationError),
        Some((list, pe)) => {
            let p2 = scan_ws(&chars, pe);
            if p2 == chars.len() {
                Ok(list)
            } else {
                Err(Error::SerializationError)
            }
        },
    }
}

/// Reads a persisted text back into entries; the name the loading path of
/// the store uses for [`decode`].
pub fn load_from_str(data: &str) -> (r: Result<Vec<Setting>, Error>)
    ensures
        match spec_parse(data@) {
            Some(vs) => r is Ok && views_of(r->Ok_0@) == vs,
            None => r == Err::<Vec<Setting>, Error>(Error::SerializationError),
        },
{
    decode(data)
}

/// The collection a persisted text yields at startup: the decoded entries,
/// or the empty collection when the text does not parse — a malformed or
/// missing file means "no settings yet", never a failure.
pub fn load_store(data: &str) -> (r: SettingsStore)
    ensures
        r.wf(),
        match spec_parse(data@) {
            Some(vs) => unique_ids(vs) ==> r@ == vs,
            None => r@ =~= Seq::<SettingView>::empty(),
        },
{
    match decode(data) {
        Ok(list) => SettingsStore::from_settings(list),
        Err(_) => SettingsStore::new(),
    }
}

} // verus!
