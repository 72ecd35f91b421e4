//! The textual snapshot format in which the registry is persisted.
//!
//! A snapshot is one structured document: an object keyed by job id whose
//! values are records with the fields `id`, `url`, `status`, `progress` and
//! `file_name` (`null` when absent).  This module defines the format at the
//! level of character sequences — `enc_coll` says what a collection looks like
//! on disk, the `sp_*` family parses it back — together with the executable
//! encoder and parser and the proof that parsing a snapshot returns exactly
//! the collection it was made from.
//!
//! The grammar is the library's own: the five record fields stand in the
//! fixed order the encoder writes, blank space between tokens is free, and a
//! quoted string may use the standard single-character escapes
//! (`\"`, `\\`, `\/`, `\n`, `\t`, `\r`, `\b`, `\f`).  A document
//! outside this grammar degrades to the empty collection on load, as any
//! unreadable snapshot does.

use vstd::prelude::*;
use vstd::slice::slice_subrange;

use crate::job::{models, wf_record, Download, DownloadModel, Status};

verus! {

// ------------------------------------------------------------------
// Encoding, at the level of character sequences.
// ------------------------------------------------------------------

/// Characters that are escaped inside a quoted string.
pub open spec fn needs_escape(c: char) -> bool {
    c == '"' || c == '\\'
}

/// The escaped form of one character.
pub open spec fn esc_char(c: char) -> Seq<char> {
    if needs_escape(c) {
        seq!['\\', c]
    } else {
        seq![c]
    }
}

/// The escaped form of a character sequence.
pub open spec fn esc(s: Seq<char>) -> Seq<char>
    decreases s.len(),
{
    if s.len() == 0 {
        Seq::empty()
    } else {
        esc_char(s[0]) + esc(s.drop_first())
    }
}

/// A quoted, escaped string.
pub open spec fn enc_str(s: Seq<char>) -> Seq<char> {
    seq!['"'] + esc(s) + seq!['"']
}

/// The digit character for one decimal digit.
pub open spec fn digit_char(n: int) -> char {
    if n == 0 { '0' }
    else if n == 1 { '1' }
    else if n == 2 { '2' }
    else if n == 3 { '3' }
    else if n == 4 { '4' }
    else if n == 5 { '5' }
    else if n == 6 { '6' }
    else if n == 7 { '7' }
    else if n == 8 { '8' }
    else { '9' }
}

/// The decimal rendering of a non-negative integer.
pub open spec fn dec_rep(n: int) -> Seq<char>
    decreases n,
{
    if n < 10 {
        seq![digit_char(n)]
    } else {
        dec_rep(n / 10) + seq![digit_char(n % 10)]
    }
}

/// The name under which a status is stored.
pub open spec fn status_name(st: Status) -> Seq<char> {
    match st {
        Status::Pending => seq!['p', 'e', 'n', 'd', 'i', 'n', 'g'],
        Status::Completed => seq!['c', 'o', 'm', 'p', 'l', 'e', 't', 'e', 'd'],
        Status::Failed => seq!['f', 'a', 'i', 'l', 'e', 'd'],
    }
}

/// The literal that stands for an absent value.
pub open spec fn null_lit() -> Seq<char> {
    seq!['n', 'u', 'l', 'l']
}

/// An optional string: the string quoted, or the null literal.
pub open spec fn enc_opt_str(o: Option<Seq<char>>) -> Seq<char> {
    match o {
        Some(s) => enc_str(s),
        None => null_lit(),
    }
}

pub open spec fn key_id() -> Seq<char> {
    seq!['i', 'd']
}

pub open spec fn key_url() -> Seq<char> {
    seq!['u', 'r', 'l']
}

pub open spec fn key_status() -> Seq<char> {
    seq!['s', 't', 'a', 't', 'u', 's']
}

pub open spec fn key_progress() -> Seq<char> {
    seq!['p', 'r', 'o', 'g', 'r', 'e', 's', 's']
}

pub open spec fn key_file_name() -> Seq<char> {
    seq!['f', 'i', 'l', 'e', '_', 'n', 'a', 'm', 'e']
}

/// One `"key": value` pair.
pub open spec fn enc_field(name: Seq<char>, value: Seq<char>) -> Seq<char> {
    enc_str(name) + seq![':', ' '] + value
}

/// One job record as an object with its five fields in a fixed order.
pub open spec fn enc_record(d: DownloadModel) -> Seq<char> {
    seq!['{']
        + enc_field(key_id(), enc_str(d.id)) + seq![',', ' ']
        + enc_field(key_url(), enc_str(d.url)) + seq![',', ' ']
        + enc_field(key_status(), enc_str(status_name(d.status))) + seq![',', ' ']
        + enc_field(key_progress(), dec_rep(d.progress as int)) + seq![',', ' ']
        + enc_field(key_file_name(), enc_opt_str(d.file_name))
        + seq!['}']
}

/// One entry of the top-level object: the record keyed by its own id, on a
/// fresh indented line.
pub open spec fn enc_entry(d: DownloadModel) -> Seq<char> {
    seq!['\n', ' ', ' '] + enc_str(d.id) + seq![':', ' '] + enc_record(d)
}

/// The comma-separated entries of a non-empty collection.
pub open spec fn enc_entries(s: Seq<DownloadModel>) -> Seq<char>
    decreases s.len(),
{
    if s.len() == 0 {
        Seq::empty()
    } else if s.len() == 1 {
        enc_entry(s[0])
    } else {
        enc_entry(s[0]) + seq![','] + enc_entries(s.drop_first())
    }
}

/// A whole collection as one pretty-printed document.
pub open spec fn enc_coll(s: Seq<DownloadModel>) -> Seq<char> {
    if s.len() == 0 {
        seq!['{', '}']
    } else {
        seq!['{'] + enc_entries(s) + seq!['\n', '}']
    }
}

// ------------------------------------------------------------------
// Parsing, at the level of character sequences.  Each parser consumes a
// prefix of its input and returns the parsed value with the rest.
// ------------------------------------------------------------------

/// Blank characters that may stand between tokens.
pub open spec fn is_ws(c: char) -> bool {
    c == ' ' || c == '\n' || c == '\t' || c == '\r'
}

/// The input with its leading blanks removed.
pub open spec fn skip_ws(s: Seq<char>) -> Seq<char>
    decreases s.len(),
{
    if s.len() > 0 && is_ws(s[0]) {
        skip_ws(s.drop_first())
    } else {
        s
    }
}

/// Expect the character `c` as the next token.
pub open spec fn sp_char(s: Seq<char>, c: char) -> Option<Seq<char>> {
    let t = skip_ws(s);
    if t.len() > 0 && t[0] == c {
        Some(t.drop_first())
    } else {
        None
    }
}

/// The character a single-letter escape stands for, if it is one.
pub open spec fn esc_code(c: char) -> Option<char> {
    if c == '"' { Some('"') }
    else if c == '\\' { Some('\\') }
    else if c == '/' { Some('/') }
    else if c == 'n' { Some('\n') }
    else if c == 't' { Some('\t') }
    else if c == 'r' { Some('\r') }
    else if c == 'b' { Some('\u{0008}') }
    else if c == 'f' { Some('\u{000C}') }
    else { None }
}

/// The body of a quoted string, up to and including the closing quote.
pub open spec fn sp_str_body(s: Seq<char>) -> Option<(Seq<char>, Seq<char>)>
    decreases s.len(),
{
    if s.len() == 0 {
        None
    } else if s[0] == '"' {
        Some((Seq::empty(), s.drop_first()))
    } else if s[0] == '\\' {
        if s.len() >= 2 {
            match esc_code(s[1]) {
                Some(c) => match sp_str_body(s.skip(2)) {
                    Some((v, r)) => Some((seq![c] + v, r)),
                    None => None,
                },
                None => None,
            }
        } else {
            None
        }
    } else {
        match sp_str_body(s.drop_first()) {
            Some((v, r)) => Some((seq![s[0]] + v, r)),
            None => None,
        }
    }
}

/// A quoted string token.
pub open spec fn sp_string(s: Seq<char>) -> Option<(Seq<char>, Seq<char>)> {
    let t = skip_ws(s);
    if t.len() > 0 && t[0] == '"' {
        sp_str_body(t.drop_first())
    } else {
        None
    }
}

pub open spec fn is_digit(c: char) -> bool {
    c == '0' || c == '1' || c == '2' || c == '3' || c == '4' || c == '5' || c == '6' || c == '7'
        || c == '8' || c == '9'
}

/// The value of one digit character.
pub open spec fn digit_val(c: char) -> int {
    if c == '0' { 0 }
    else if c == '1' { 1 }
    else if c == '2' { 2 }
    else if c == '3' { 3 }
    else if c == '4' { 4 }
    else if c == '5' { 5 }
    else if c == '6' { 6 }
    else if c == '7' { 7 }
    else if c == '8' { 8 }
    else { 9 }
}

/// The longest digit prefix of the input, and the rest.
pub open spec fn sp_digits(s: Seq<char>) -> (Seq<char>, Seq<char>)
    decreases s.len(),
{
    if s.len() > 0 && is_digit(s[0]) {
        let (d, r) = sp_digits(s.drop_first());
        (seq![s[0]] + d, r)
    } else {
        (Seq::empty(), s)
    }
}

/// The value of a digit sequence.
pub open spec fn digits_val(ds: Seq<char>) -> int
    decreases ds.len(),
{
    if ds.len() == 0 {
        0
    } else {
        digits_val(ds.drop_last()) * 10 + digit_val(ds.last())
    }
}

/// A progress number: decimal digits whose value fits the progress field.
pub open spec fn sp_progress(s: Seq<char>) -> Option<(u8, Seq<char>)> {
    let t = skip_ws(s);
    let (ds, r) = sp_digits(t);
    if ds.len() == 0 || digits_val(ds) > 255 {
        None
    } else {
        Some((digits_val(ds) as u8, r))
    }
}

/// The status a stored name stands for.
pub open spec fn status_of(nm: Seq<char>) -> Option<Status> {
    if nm == status_name(Status::Pending) {
        Some(Status::Pending)
    } else if nm == status_name(Status::Completed) {
        Some(Status::Completed)
    } else if nm == status_name(Status::Failed) {
        Some(Status::Failed)
    } else {
        None
    }
}

/// A `"name":` field head: the given key followed by a colon.
pub open spec fn sp_field(s: Seq<char>, name: Seq<char>) -> Option<Seq<char>> {
    match sp_string(s) {
        Some((k, r)) => if k == name {
            sp_char(r, ':')
        } else {
            None
        },
        None => None,
    }
}

/// An optional string: the null literal, or a quoted string.
pub open spec fn sp_opt_str(s: Seq<char>) -> Option<(Option<Seq<char>>, Seq<char>)> {
    let t = skip_ws(s);
    if t.len() >= 4 && t.subrange(0, 4) == null_lit() {
        Some((None, t.skip(4)))
    } else {
        match sp_string(s) {
            Some((v, r)) => Some((Some(v), r)),
            None => None,
        }
    }
}

/// One record object, with its five fields in the fixed order.
pub open spec fn sp_record(s: Seq<char>) -> Option<(DownloadModel, Seq<char>)> {
    match sp_char(s, '{') {
        None => None,
        Some(r0) => match sp_field(r0, key_id()) {
            None => None,
            Some(r1) => match sp_string(r1) {
                None => None,
                Some((id, r2)) => match sp_char(r2, ',') {
                    None => None,
                    Some(r3) => match sp_field(r3, key_url()) {
                        None => None,
                        Some(r4) => match sp_string(r4) {
                            None => None,
                            Some((url, r5)) => match sp_char(r5, ',') {
                                None => None,
                                Some(r6) => sp_record_tail(s, id, url, r6),
                            },
                        },
                    },
                },
            },
        },
    }
}

/// The status, progress and file-name fields of a record, and its closing
/// brace.
pub open spec fn sp_record_tail(
    s: Seq<char>,
    id: Seq<char>,
    url: Seq<char>,
    r6: Seq<char>,
) -> Option<(DownloadModel, Seq<char>)> {
    match sp_field(r6, key_status()) {
        None => None,
        Some(r7) => match sp_string(r7) {
            None => None,
            Some((nm, r8)) => match status_of(nm) {
                None => None,
                Some(st) => match sp_char(r8, ',') {
                    None => None,
                    Some(r9) => match sp_field(r9, key_progress()) {
                        None => None,
                        Some(r10) => match sp_progress(r10) {
                            None => None,
                            Some((p, r11)) => match sp_char(r11, ',') {
                                None => None,
                                Some(r12) => match sp_field(r12, key_file_name()) {
                                    None => None,
                                    Some(r13) => match sp_opt_str(r13) {
                                        None => None,
                                        Some((fnm, r14)) => match sp_char(r14, '}') {
                                            None => None,
                                            Some(rest) => Some((
                                                DownloadModel {
                                                    id,
                                                    url,
                                                    status: st,
                                                    progress: p,
                                                    file_name: fnm,
                                                },
                                                rest,
                                            )),
                                        },
                                    },
                                },
                            },
                        },
                    },
                },
            },
        },
    }
}

/// One top-level entry: a key (ignored; the record's own id field is
/// authoritative), a colon, and the record.
pub open spec fn sp_entry(s: Seq<char>) -> Option<(DownloadModel, Seq<char>)> {
    match sp_string(s) {
        None => None,
        Some((_k, r)) => match sp_char(r, ':') {
            None => None,
            Some(r1) => sp_record(r1),
        },
    }
}

/// One or more comma-separated entries, up to and including the closing brace
/// of the document.
pub open spec fn sp_entries(s: Seq<char>) -> Option<(Seq<DownloadModel>, Seq<char>)>
    decreases s.len(),
{
    match sp_entry(s) {
        None => None,
        Some((d, r)) => {
            let t = skip_ws(r);
            if t.len() > 0 && t[0] == ',' {
                let r2 = t.drop_first();
                if r2.len() < s.len() {
                    match sp_entries(r2) {
                        None => None,
                        Some((ds, r3)) => Some((seq![d] + ds, r3)),
                    }
                } else {
                    None
                }
            } else if t.len() > 0 && t[0] == '}' {
                Some((seq![d], t.drop_first()))
            } else {
                None
            }
        },
    }
}

/// A whole collection object.
pub open spec fn sp_coll(s: Seq<char>) -> Option<(Seq<DownloadModel>, Seq<char>)> {
    match sp_char(s, '{') {
        None => None,
        Some(r) => {
            let t = skip_ws(r);
            if t.len() > 0 && t[0] == '}' {
                Some((Seq::empty(), t.drop_first()))
            } else {
                sp_entries(r)
            }
        },
    }
}

/// A whole document: a collection followed by nothing but blanks.
pub open spec fn sp_doc(s: Seq<char>) -> Option<Seq<DownloadModel>> {
    match sp_coll(s) {
        None => None,
        Some((ds, r)) => if skip_ws(r).len() == 0 {
            Some(ds)
        } else {
            None
        },
    }
}

// ------------------------------------------------------------------
// Round trip: parsing an encoded snapshot gives back the collection.
// ------------------------------------------------------------------

/// Every character of `p` is blank.
pub open spec fn all_ws(p: Seq<char>) -> bool {
    forall|i: int| 0 <= i < p.len() ==> is_ws(p[i])
}

/// Leading blanks are skipped.
proof fn lemma_skip_ws_concat(p: Seq<char>, s: Seq<char>)
    requires
        all_ws(p),
    ensures
        skip_ws(p + s) == skip_ws(s),
    decreases p.len(),
{
    if p.len() == 0 {
        assert(p + s =~= s);
    } else {
        assert(is_ws(p[0]));
        assert((p + s)[0] == p[0]);
        assert((p + s).drop_first() =~= p.drop_first() + s);
        assert(all_ws(p.drop_first())) by {
            assert(forall|i: int| 0 <= i < p.drop_first().len()
                ==> p.drop_first()[i] == p[i + 1]);
        }
        lemma_skip_ws_concat(p.drop_first(), s);
    }
}

/// An input that does not start with a blank is unchanged by `skip_ws`.
proof fn lemma_skip_ws_clean(s: Seq<char>)
    requires
        s.len() == 0 || !is_ws(s[0]),
    ensures
        skip_ws(s) == s,
{
}

/// Parsing the escaped body of `v` followed by a closing quote gives `v`.
proof fn lemma_str_body_round(v: Seq<char>, rest: Seq<char>)
    ensures
        sp_str_body(esc(v) + seq!['"'] + rest) == Some((v, rest)),
    decreases v.len(),
{
    let s = esc(v) + seq!['"'] + rest;
    if v.len() == 0 {
        assert(esc(v) =~= Seq::<char>::empty());
        assert(s[0] == '"');
        assert(s.drop_first() =~= rest);
    } else {
        let c = v[0];
        let w = esc(v.drop_first()) + seq!['"'] + rest;
        lemma_str_body_round(v.drop_first(), rest);
        if needs_escape(c) {
            assert(esc(v) =~= seq!['\\', c] + esc(v.drop_first()));
            assert(s =~= seq!['\\', c] + w);
            assert(s[0] == '\\');
            assert(s[1] == c);
            assert(s.skip(2) =~= w);
            assert(seq![c] + v.drop_first() =~= v);
        } else {
            assert(esc(v) =~= seq![c] + esc(v.drop_first()));
            assert(s =~= seq![c] + w);
            assert(s[0] == c);
            assert(s.drop_first() =~= w);
            assert(seq![c] + v.drop_first() =~= v);
        }
    }
}

/// Parsing a quoted string token after blanks gives back the string.
proof fn lemma_string_round(p: Seq<char>, v: Seq<char>, rest: Seq<char>)
    requires
        all_ws(p),
    ensures
        sp_string(p + (enc_str(v) + rest)) == Some((v, rest)),
{
    let x = enc_str(v) + rest;
    lemma_skip_ws_concat(p, x);
    assert(x[0] == '"');
    lemma_skip_ws_clean(x);
    assert(x.drop_first() =~= esc(v) + seq!['"'] + rest);
    lemma_str_body_round(v, rest);
}

/// Expecting a non-blank character after blanks consumes exactly it.
proof fn lemma_char_round(p: Seq<char>, c: char, rest: Seq<char>)
    requires
        all_ws(p),
        !is_ws(c),
    ensures
        sp_char(p + (seq![c] + rest), c) == Some(rest),
{
    let x = seq![c] + rest;
    lemma_skip_ws_concat(p, x);
    assert(x[0] == c);
    lemma_skip_ws_clean(x);
    assert(x.drop_first() =~= rest);
}

/// Parsing a field head emitted for `name` leaves the input after the colon.
proof fn lemma_field_round(p: Seq<char>, name: Seq<char>, tail: Seq<char>)
    requires
        all_ws(p),
    ensures
        sp_field(p + (enc_str(name) + (seq![':', ' '] + tail)), name)
            == Some(seq![' '] + tail),
{
    lemma_string_round(p, name, seq![':', ' '] + tail);
    let r = seq![':', ' '] + tail;
    lemma_skip_ws_clean(r);
    assert(r[0] == ':');
    assert(r.drop_first() =~= seq![' '] + tail);
}

/// Digits are consumed exactly up to the first non-digit.
proof fn lemma_digits_round(ds: Seq<char>, rest: Seq<char>)
    requires
        forall|i: int| 0 <= i < ds.len() ==> is_digit(ds[i]),
        rest.len() == 0 || !is_digit(rest[0]),
    ensures
        sp_digits(ds + rest) == (ds, rest),
    decreases ds.len(),
{
    if ds.len() == 0 {
        assert(ds + rest =~= rest);
    } else {
        assert((ds + rest)[0] == ds[0]);
        assert((ds + rest).drop_first() =~= ds.drop_first() + rest);
        assert(forall|i: int| 0 <= i < ds.drop_first().len()
            ==> ds.drop_first()[i] == ds[i + 1]);
        lemma_digits_round(ds.drop_first(), rest);
        assert(seq![ds[0]] + ds.drop_first() =~= ds);
    }
}

/// Parsing the decimal rendering of a progress value gives it back.
proof fn lemma_progress_round(p: Seq<char>, n: u8, rest: Seq<char>)
    requires
        all_ws(p),
        n == 0 || n == 100,
        rest.len() > 0,
        !is_digit(rest[0]),
    ensures
        sp_progress(p + (dec_rep(n as int) + rest)) == Some((n, rest)),
{
    let ds = dec_rep(n as int);
    assert(digits_val(Seq::<char>::empty()) == 0);
    if n == 0 {
        assert(ds =~= seq!['0']);
        assert(seq!['0'].drop_last() =~= Seq::<char>::empty());
        assert(digits_val(seq!['0']) == 0);
    } else {
        assert(dec_rep(1) =~= seq!['1']);
        assert(dec_rep(10) =~= seq!['1', '0']);
        assert(ds =~= seq!['1', '0', '0']);
        assert(seq!['1', '0', '0'].drop_last() =~= seq!['1', '0']);
        assert(seq!['1', '0'].drop_last() =~= seq!['1']);
        assert(seq!['1'].drop_last() =~= Seq::<char>::empty());
        assert(digits_val(seq!['1']) == 1);
        assert(digits_val(seq!['1', '0']) == 10);
        assert(digits_val(seq!['1', '0', '0']) == 100);
    }
    let x = ds + rest;
    lemma_skip_ws_concat(p, x);
    assert(x[0] == ds[0]);
    lemma_skip_ws_clean(x);
    lemma_digits_round(ds, rest);
}

/// The stored status names map back to their statuses.
proof fn lemma_status_of_name(st: Status)
    ensures
        status_of(status_name(st)) == Some(st),
{
    assert(status_name(Status::Pending).len() == 7);
    assert(status_name(Status::Completed).len() == 9);
    assert(status_name(Status::Failed).len() == 6);
}

/// Parsing the optional file name gives it back.
proof fn lemma_opt_str_round(p: Seq<char>, o: Option<Seq<char>>, rest: Seq<char>)
    requires
        all_ws(p),
    ensures
        sp_opt_str(p + (enc_opt_str(o) + rest)) == Some((o, rest)),
{
    let x = enc_opt_str(o) + rest;
    lemma_skip_ws_concat(p, x);
    match o {
        None => {
            assert(x[0] == 'n');
            lemma_skip_ws_clean(x);
            assert(x.len() >= 4);
            assert(x.subrange(0, 4) =~= null_lit());
            assert(x.skip(4) =~= rest);
        },
        Some(v) => {
            assert(x[0] == '"');
            lemma_skip_ws_clean(x);
            if x.len() >= 4 {
                assert(x.subrange(0, 4)[0] == '"');
                assert(null_lit()[0] == 'n');
                assert(x.subrange(0, 4) != null_lit());
            }
            lemma_string_round(p, v, rest);
        },
    }
}

/// Parsing an encoded record after blanks gives back the record.
#[verifier::rlimit(100)]
#[verifier::spinoff_prover]
proof fn lemma_record_round(p: Seq<char>, d: DownloadModel, rest: Seq<char>)
    requires
        all_ws(p),
        wf_record(d),
    ensures
        sp_record(p + (enc_record(d) + rest)) == Some((d, rest)),
{
    let s = p + (enc_record(d) + rest);
    let sp = seq![' '];
    let t14 = seq!['}'] + rest;
    let v5 = enc_opt_str(d.file_name) + t14;
    let t12 = enc_str(key_file_name()) + (seq![':', ' '] + v5);
    let t11 = seq![',', ' '] + t12;
    let v4 = dec_rep(d.progress as int) + t11;
    let t9 = enc_str(key_progress()) + (seq![':', ' '] + v4);
    let t8 = seq![',', ' '] + t9;
    let v3 = enc_str(status_name(d.status)) + t8;
    let t6 = enc_str(key_status()) + (seq![':', ' '] + v3);
    let t5 = seq![',', ' '] + t6;
    let v2 = enc_str(d.url) + t5;
    let t3 = enc_str(key_url()) + (seq![':', ' '] + v2);
    let t2 = seq![',', ' '] + t3;
    let v1 = enc_str(d.id) + t2;
    let t0 = enc_str(key_id()) + (seq![':', ' '] + v1);
    assert(s =~= p + (seq!['{'] + t0));
    assert(all_ws(sp));

    lemma_char_round(p, '{', t0);
    lemma_field_round(Seq::empty(), key_id(), v1);
    assert(t0 =~= Seq::<char>::empty() + (enc_str(key_id()) + (seq![':', ' '] + v1)));
    lemma_string_round(sp, d.id, t2);
    lemma_char_round(Seq::empty(), ',', sp + t3);
    assert(t2 =~= Seq::<char>::empty() + (seq![','] + (sp + t3)));
    lemma_field_round(sp, key_url(), v2);
    assert(sp + t3 =~= sp + (enc_str(key_url()) + (seq![':', ' '] + v2)));
    lemma_string_round(sp, d.url, t5);
    lemma_char_round(Seq::empty(), ',', sp + t6);
    assert(t5 =~= Seq::<char>::empty() + (seq![','] + (sp + t6)));

    lemma_field_round(sp, key_status(), v3);
    assert(sp + t6 =~= sp + (enc_str(key_status()) + (seq![':', ' '] + v3)));
    lemma_string_round(sp, status_name(d.status), t8);
    lemma_status_of_name(d.status);
    lemma_char_round(Seq::empty(), ',', sp + t9);
    assert(t8 =~= Seq::<char>::empty() + (seq![','] + (sp + t9)));
    lemma_field_round(sp, key_progress(), v4);
    assert(sp + t9 =~= sp + (enc_str(key_progress()) + (seq![':', ' '] + v4)));
    assert(d.progress == 0 || d.progress == 100);
    assert(t11.len() > 0 && !is_digit(t11[0]));
    lemma_progress_round(sp, d.progress, t11);
    lemma_char_round(Seq::empty(), ',', sp + t12);
    assert(t11 =~= Seq::<char>::empty() + (seq![','] + (sp + t12)));
    lemma_field_round(sp, key_file_name(), v5);
    assert(sp + t12 =~= sp + (enc_str(key_file_name()) + (seq![':', ' '] + v5)));
    lemma_opt_str_round(sp, d.file_name, t14);
    lemma_char_round(Seq::empty(), '}', rest);
    assert(t14 =~= Seq::<char>::empty() + (seq!['}'] + rest));

    assert((DownloadModel {
        id: d.id,
        url: d.url,
        status: d.status,
        progress: d.progress,
        file_name: d.file_name,
    }) =~= d);
}

/// Parsing an encoded entry gives back its record.
proof fn lemma_entry_round(d: DownloadModel, rest: Seq<char>)
    requires
        wf_record(d),
    ensures
        sp_entry(enc_entry(d) + rest) == Some((d, rest)),
{
    let nl = seq!['\n', ' ', ' '];
    let rest1 = seq![':', ' '] + (enc_record(d) + rest);
    assert(all_ws(nl));
    assert(enc_entry(d) + rest =~= nl + (enc_str(d.id) + rest1));
    lemma_string_round(nl, d.id, rest1);
    lemma_char_round(Seq::empty(), ':', seq![' '] + (enc_record(d) + rest));
    assert(rest1 =~= Seq::<char>::empty() + (seq![':'] + (seq![' '] + (enc_record(d) + rest))));
    assert(all_ws(seq![' ']));
    lemma_record_round(seq![' '], d, rest);
}

/// Parsing encoded entries up to the closing brace gives back the records.
proof fn lemma_entries_round(s: Seq<DownloadModel>, rest: Seq<char>)
    requires
        s.len() >= 1,
        forall|i: int| 0 <= i < s.len() ==> wf_record(s[i]),
    ensures
        sp_entries(enc_entries(s) + (seq!['\n', '}'] + rest)) == Some((s, rest)),
    decreases s.len(),
{
    let x = enc_entries(s) + (seq!['\n', '}'] + rest);
    if s.len() == 1 {
        let tail = seq!['\n', '}'] + rest;
        assert(x =~= enc_entry(s[0]) + tail);
        lemma_entry_round(s[0], tail);
        assert(all_ws(seq!['\n']));
        assert(tail =~= seq!['\n'] + (seq!['}'] + rest));
        lemma_skip_ws_concat(seq!['\n'], seq!['}'] + rest);
        lemma_skip_ws_clean(seq!['}'] + rest);
        let t = skip_ws(tail);
        assert(t == seq!['}'] + rest);
        assert(t[0] == '}');
        assert(t.drop_first() =~= rest);
        assert(seq![s[0]] =~= s);
    } else {
        let ss = s.drop_first();
        let e2 = enc_entries(ss) + (seq!['\n', '}'] + rest);
        let tail = seq![','] + e2;
        assert(x =~= enc_entry(s[0]) + tail);
        lemma_entry_round(s[0], tail);
        lemma_skip_ws_clean(tail);
        assert(tail[0] == ',');
        assert(tail.drop_first() =~= e2);
        assert(enc_entry(s[0]).len() >= 3) by {
            assert(enc_entry(s[0]) == seq!['\n', ' ', ' '] + enc_str(s[0].id) + seq![
                ':',
                ' ',
            ] + enc_record(s[0]));
        }
        assert(e2.len() < x.len());
        assert(forall|i: int| 0 <= i < ss.len() ==> ss[i] == s[i + 1]);
        lemma_entries_round(ss, rest);
        assert(seq![s[0]] + ss =~= s);
    }
}

/// The round trip: parsing an encoded snapshot of any collection of
/// well-formed records gives back exactly that collection.
#[verifier::rlimit(100)]
pub proof fn lemma_doc_round(s: Seq<DownloadModel>)
    requires
        forall|i: int| 0 <= i < s.len() ==> wf_record(s[i]),
    ensures
        sp_doc(enc_coll(s)) == Some(s),
{
    if s.len() == 0 {
        lemma_char_round(Seq::empty(), '{', seq!['}']);
        assert(enc_coll(s) =~= Seq::<char>::empty() + (seq!['{'] + seq!['}']));
        lemma_skip_ws_clean(seq!['}']);
        assert(seq!['}'].drop_first() =~= Seq::<char>::empty());
        assert(skip_ws(Seq::<char>::empty()).len() == 0);
    } else {
        let x = enc_entries(s) + (seq!['\n', '}'] + Seq::<char>::empty());
        lemma_char_round(Seq::empty(), '{', x);
        assert(enc_coll(s) =~= Seq::<char>::empty() + (seq!['{'] + x));
        // After the brace the input starts with the first entry, whose first
        // non-blank character is a quote, so the empty-object branch is not
        // taken.
        let w = if s.len() == 1 {
            Seq::<char>::empty()
        } else {
            seq![','] + enc_entries(s.drop_first())
        };
        assert(enc_entries(s) =~= enc_entry(s[0]) + w);
        let z = enc_str(s[0].id) + (seq![':', ' '] + enc_record(s[0]) + w + (seq!['\n', '}']
            + Seq::<char>::empty()));
        assert(x =~= seq!['\n', ' ', ' '] + z);
        assert(all_ws(seq!['\n', ' ', ' ']));
        lemma_skip_ws_concat(seq!['\n', ' ', ' '], z);
        assert(z[0] == '"');
        lemma_skip_ws_clean(z);
        assert(skip_ws(x) == z);
        assert(z[0] != '}');
        lemma_entries_round(s, Seq::<char>::empty());
        assert(skip_ws(Seq::<char>::empty()).len() == 0);
    }
}

// ------------------------------------------------------------------
// The executable encoder.
// ------------------------------------------------------------------

/// Relies on `str::chars`: the characters of a string slice, in order.
#[verifier::external_body]
fn chars_of(s: &str) -> (r: Vec<char>)
    ensures
        r@ == s@,
{
    s.chars().collect()
}

/// Relies on `String::from_iter` over characters: the collected string holds
/// exactly the given characters, in order.
#[verifier::external_body]
fn string_of(v: Vec<char>) -> (r: String)
    ensures
        r@ == v@,
{
    v.into_iter().collect()
}

/// Escaping a sequence one character longer appends that character's escape.
proof fn lemma_esc_snoc(t: Seq<char>, c: char)
    ensures
        esc(t.push(c)) == esc(t) + esc_char(c),
    decreases t.len(),
{
    if t.len() == 0 {
        assert(t.push(c) =~= seq![c]);
        assert(seq![c].drop_first() =~= Seq::<char>::empty());
        assert(esc(Seq::<char>::empty()) == Seq::<char>::empty());
        assert(esc(seq![c]) == esc_char(c) + esc(Seq::<char>::empty()));
        assert(esc(t.push(c)) =~= esc(t) + esc_char(c));
    } else {
        assert(t.push(c).drop_first() =~= t.drop_first().push(c));
        assert(t.push(c)[0] == t[0]);
        lemma_esc_snoc(t.drop_first(), c);
        assert(t.push(c).len() > 0);
        assert(esc(t.push(c)) == esc_char(t[0]) + esc(t.drop_first().push(c)));
        assert(esc(t.drop_first().push(c)) == esc(t.drop_first()) + esc_char(c));
        assert(esc(t.push(c)) =~= esc(t) + esc_char(c));
    }
}

/// A sequence without characters that need escaping is its own escape.
proof fn lemma_esc_clean(s: Seq<char>)
    requires
        forall|i: int| 0 <= i < s.len() ==> !needs_escape(s[i]),
    ensures
        esc(s) == s,
    decreases s.len(),
{
    if s.len() == 0 {
        assert(esc(s) =~= s);
    } else {
        assert(forall|i: int| 0 <= i < s.drop_first().len() ==> s.drop_first()[i] == s[i + 1]);
        lemma_esc_clean(s.drop_first());
        assert(esc(s) =~= s);
    }
}

fn digit_of(n: u8) -> (r: char)
    requires
        n < 10,
    ensures
        r == digit_char(n as int),
{
    if n == 0 { '0' }
    else if n == 1 { '1' }
    else if n == 2 { '2' }
    else if n == 3 { '3' }
    else if n == 4 { '4' }
    else if n == 5 { '5' }
    else if n == 6 { '6' }
    else if n == 7 { '7' }
    else if n == 8 { '8' }
    else { '9' }
}

/// Append the decimal rendering of `n`.
fn push_dec(out: &mut Vec<char>, n: u8)
    ensures
        final(out)@ == old(out)@ + dec_rep(n as int),
    decreases n,
{
    if n < 10 {
        out.push(digit_of(n));
        proof {
            assert(out@ =~= old(out)@ + dec_rep(n as int));
        }
    } else {
        push_dec(out, n / 10);
        out.push(digit_of(n % 10));
        proof {
            assert(out@ =~= old(out)@ + dec_rep(n as int));
        }
    }
}

/// Append the quoted, escaped form of `s`.
fn push_str_quoted(out: &mut Vec<char>, s: &String)
    ensures
        final(out)@ == old(out)@ + enc_str(s@),
{
    let cs = chars_of(s.as_str());
    out.push('"');
    let mut i: usize = 0;
    while i < cs.len()
        invariant
            i <= cs.len(),
            cs@ == s@,
            out@ == old(out)@ + seq!['"'] + esc(s@.take(i as int)),
        decreases cs.len() - i,
    {
        let c = cs[i];
        if c == '"' || c == '\\' {
            out.push('\\');
            out.push(c);
        } else {
            out.push(c);
        }
        proof {
            lemma_esc_snoc(s@.take(i as int), s@[i as int]);
            assert(s@.take(i as int + 1) =~= s@.take(i as int).push(s@[i as int]));
            assert(out@ =~= old(out)@ + seq!['"'] + esc(s@.take(i as int + 1)));
        }
        i += 1;
    }
    out.push('"');
    proof {
        assert(s@.take(s@.len() as int) =~= s@);
        assert(out@ =~= old(out)@ + enc_str(s@));
    }
}

/// Append the quoted status name.
fn push_status(out: &mut Vec<char>, st: Status)
    ensures
        final(out)@ == old(out)@ + enc_str(status_name(st)),
{
    proof {
        lemma_esc_clean(status_name(st));
    }
    out.push('"');
    match st {
        Status::Pending => {
            out.push('p'); out.push('e'); out.push('n'); out.push('d');
            out.push('i'); out.push('n'); out.push('g');
        },
        Status::Completed => {
            out.push('c'); out.push('o'); out.push('m'); out.push('p');
            out.push('l'); out.push('e'); out.push('t'); out.push('e'); out.push('d');
        },
        Status::Failed => {
            out.push('f'); out.push('a'); out.push('i'); out.push('l');
            out.push('e'); out.push('d');
        },
    }
    out.push('"');
    proof {
        assert(out@ =~= old(out)@ + enc_str(status_name(st)));
    }
}

/// Append `"id": `.
fn push_head_id(out: &mut Vec<char>)
    ensures
        final(out)@ == old(out)@ + enc_str(key_id()) + seq![':', ' '],
{
    out.push('"'); out.push('i'); out.push('d'); out.push('"');
    out.push(':'); out.push(' ');
    proof {
        lemma_esc_clean(key_id());
        assert(out@ =~= old(out)@ + enc_str(key_id()) + seq![':', ' ']);
    }
}

/// Append `"url": `.
fn push_head_url(out: &mut Vec<char>)
    ensures
        final(out)@ == old(out)@ + enc_str(key_url()) + seq![':', ' '],
{
    out.push('"'); out.push('u'); out.push('r'); out.push('l'); out.push('"');
    out.push(':'); out.push(' ');
    proof {
        lemma_esc_clean(key_url());
        assert(out@ =~= old(out)@ + enc_str(key_url()) + seq![':', ' ']);
    }
}

/// Append `"status": `.
fn push_head_status(out: &mut Vec<char>)
    ensures
        final(out)@ == old(out)@ + enc_str(key_status()) + seq![':', ' '],
{
    out.push('"'); out.push('s'); out.push('t'); out.push('a'); out.push('t');
    out.push('u'); out.push('s'); out.push('"');
    out.push(':'); out.push(' ');
    proof {
        lemma_esc_clean(key_status());
        assert(out@ =~= old(out)@ + enc_str(key_status()) + seq![':', ' ']);
    }
}

/// Append `"progress": `.
fn push_head_progress(out: &mut Vec<char>)
    ensures
        final(out)@ == old(out)@ + enc_str(key_progress()) + seq![':', ' '],
{
    out.push('"'); out.push('p'); out.push('r'); out.push('o'); out.push('g');
    out.push('r'); out.push('e'); out.push('s'); out.push('s'); out.push('"');
    out.push(':'); out.push(' ');
    proof {
        lemma_esc_clean(key_progress());
        assert(out@ =~= old(out)@ + enc_str(key_progress()) + seq![':', ' ']);
    }
}

/// Append `"file_name": `.
fn push_head_file_name(out: &mut Vec<char>)
    ensures
        final(out)@ == old(out)@ + enc_str(key_file_name()) + seq![':', ' '],
{
    out.push('"'); out.push('f'); out.push('i'); out.push('l'); out.push('e');
    out.push('_'); out.push('n'); out.push('a'); out.push('m'); out.push('e'); out.push('"');
    out.push(':'); out.push(' ');
    proof {
        lemma_esc_clean(key_file_name());
        assert(out@ =~= old(out)@ + enc_str(key_file_name()) + seq![':', ' ']);
    }
}

/// Append the optional file name: the quoted string, or the null literal.
fn push_opt_str(out: &mut Vec<char>, o: &Option<String>)
    ensures
        final(out)@ == old(out)@ + enc_opt_str(match o {
            Some(f) => Some(f@),
            None => None,
        }),
{
    match o {
        Some(f) => {
            push_str_quoted(out, f);
        },
        None => {
            out.push('n'); out.push('u'); out.push('l'); out.push('l');
            proof {
                assert(out@ =~= old(out)@ + null_lit());
            }
        },
    }
}

/// Append one encoded record.
#[verifier::rlimit(100)]
fn push_record(out: &mut Vec<char>, d: &Download)
    ensures
        final(out)@ == old(out)@ + enc_record(d@),
{
    out.push('{');
    push_head_id(out);
    push_str_quoted(out, &d.id);
    out.push(','); out.push(' ');
    let ghost m1 = old(out)@ + seq!['{'] + enc_field(key_id(), enc_str(d@.id)) + seq![',', ' '];
    proof {
        assert(out@ =~= m1);
    }
    push_head_url(out);
    push_str_quoted(out, &d.url);
    out.push(','); out.push(' ');
    let ghost m2 = m1 + enc_field(key_url(), enc_str(d@.url)) + seq![',', ' '];
    proof {
        assert(out@ =~= m2);
    }
    push_head_status(out);
    push_status(out, d.status);
    out.push(','); out.push(' ');
    let ghost m3 = m2 + enc_field(key_status(), enc_str(status_name(d@.status))) + seq![',', ' '];
    proof {
        assert(out@ =~= m3);
    }
    push_head_progress(out);
    push_dec(out, d.progress);
    out.push(','); out.push(' ');
    let ghost m4 = m3 + enc_field(key_progress(), dec_rep(d@.progress as int)) + seq![',', ' '];
    proof {
        assert(out@ =~= m4);
    }
    push_head_file_name(out);
    push_opt_str(out, &d.file_name);
    out.push('}');
    proof {
        assert(out@ =~= m4 + enc_field(key_file_name(), enc_opt_str(d@.file_name)) + seq!['}']);
        assert(out@ =~= old(out)@ + enc_record(d@));
    }
}

/// Appending one more record to a non-empty entry list adds a comma and its
/// entry.
proof fn lemma_enc_entries_snoc(s: Seq<DownloadModel>, d: DownloadModel)
    requires
        s.len() >= 1,
    ensures
        enc_entries(s.push(d)) == enc_entries(s) + seq![','] + enc_entry(d),
    decreases s.len(),
{
    if s.len() == 1 {
        assert(s.push(d).drop_first() =~= seq![d]);
        assert(s.push(d)[0] == s[0]);
        assert(enc_entries(seq![d]) == enc_entry(d));
        assert(enc_entries(s.push(d)) =~= enc_entries(s) + seq![','] + enc_entry(d));
    } else {
        assert(s.push(d).drop_first() =~= s.drop_first().push(d));
        assert(s.push(d)[0] == s[0]);
        lemma_enc_entries_snoc(s.drop_first(), d);
        assert(enc_entries(s.push(d)) =~= enc_entries(s) + seq![','] + enc_entry(d));
    }
}

/// The snapshot document for the given records.
pub fn encode_snapshot(jobs: &Vec<Download>) -> (r: String)
    ensures
        r@ == enc_coll(models(jobs@)),
{
    let mut out: Vec<char> = Vec::new();
    out.push('{');
    if jobs.len() == 0 {
        out.push('}');
        proof {
            assert(out@ =~= enc_coll(models(jobs@)));
        }
        return string_of(out);
    }
    let mut i: usize = 0;
    while i < jobs.len()
        invariant
            i <= jobs.len(),
            jobs.len() >= 1,
            i == 0 ==> out@ == seq!['{'],
            i > 0 ==> out@ == seq!['{'] + enc_entries(models(jobs@).take(i as int)),
        decreases jobs.len() - i,
    {
        if i > 0 {
            out.push(',');
        }
        let ghost pre = out@;
        out.push('\n'); out.push(' '); out.push(' ');
        push_str_quoted(&mut out, &jobs[i].id);
        out.push(':'); out.push(' ');
        push_record(&mut out, &jobs[i]);
        proof {
            let m = models(jobs@);
            assert(m[i as int] == jobs@[i as int]@);
            assert(out@ =~= pre + enc_entry(m[i as int]));
            assert(m.take(i as int + 1) =~= m.take(i as int).push(m[i as int]));
            if i == 0 {
                assert(m.take(1) =~= seq![m[0]]);
                assert(enc_entries(seq![m[0]]) == enc_entry(m[0]));
                assert(out@ =~= seq!['{'] + enc_entries(m.take(1)));
            } else {
                lemma_enc_entries_snoc(m.take(i as int), m[i as int]);
                assert(out@ =~= seq!['{'] + enc_entries(m.take(i as int + 1)));
            }
        }
        i += 1;
    }
    out.push('\n');
    out.push('}');
    proof {
        assert(models(jobs@).take(jobs@.len() as int) =~= models(jobs@));
        assert(out@ =~= enc_coll(models(jobs@)));
    }
    string_of(out)
}

// ------------------------------------------------------------------
// The executable parser.  Each function mirrors its `sp_*` counterpart.
// ------------------------------------------------------------------

fn is_ws_x(c: char) -> (r: bool)
    ensures
        r == is_ws(c),
{
    c == ' ' || c == '\n' || c == '\t' || c == '\r'
}

fn is_digit_x(c: char) -> (r: bool)
    ensures
        r == is_digit(c),
{
    c == '0' || c == '1' || c == '2' || c == '3' || c == '4' || c == '5' || c == '6' || c == '7'
        || c == '8' || c == '9'
}

fn digit_val_x(c: char) -> (r: u8)
    requires
        is_digit(c),
    ensures
        r as int == digit_val(c),
{
    if c == '0' { 0 }
    else if c == '1' { 1 }
    else if c == '2' { 2 }
    else if c == '3' { 3 }
    else if c == '4' { 4 }
    else if c == '5' { 5 }
    else if c == '6' { 6 }
    else if c == '7' { 7 }
    else if c == '8' { 8 }
    else { 9 }
}

fn ws_x<'a>(s: &'a [char]) -> (r: &'a [char])
    ensures
        r@ == skip_ws(s@),
    decreases s@.len(),
{
    if s.len() > 0 && is_ws_x(s[0]) {
        let t = slice_subrange(s, 1, s.len());
        proof {
            assert(t@ =~= s@.drop_first());
        }
        ws_x(t)
    } else {
        s
    }
}

fn char_x<'a>(s: &'a [char], c: char) -> (r: Option<&'a [char]>)
    ensures
        r is Some <==> sp_char(s@, c) is Some,
        r matches Some(t) ==> sp_char(s@, c) == Some(t@),
{
    let t = ws_x(s);
    if t.len() > 0 && t[0] == c {
        let rr = slice_subrange(t, 1, t.len());
        proof {
            assert(rr@ =~= skip_ws(s@).drop_first());
        }
        Some(rr)
    } else {
        None
    }
}

fn esc_code_x(c: char) -> (r: Option<char>)
    ensures
        r == esc_code(c),
{
    if c == '"' { Some('"') }
    else if c == '\\' { Some('\\') }
    else if c == '/' { Some('/') }
    else if c == 'n' { Some('\n') }
    else if c == 't' { Some('\t') }
    else if c == 'r' { Some('\r') }
    else if c == 'b' { Some('\u{0008}') }
    else if c == 'f' { Some('\u{000C}') }
    else { None }
}

fn str_body_x<'a>(s: &'a [char]) -> (r: Option<(Vec<char>, &'a [char])>)
    ensures
        r is Some <==> sp_str_body(s@) is Some,
        r matches Some(p) ==> sp_str_body(s@) == Some((p.0@, p.1@)),
    decreases s@.len(),
{
    if s.len() == 0 {
        None
    } else if s[0] == '"' {
        let rest = slice_subrange(s, 1, s.len());
        proof {
            assert(rest@ =~= s@.drop_first());
        }
        Some((Vec::new(), rest))
    } else if s[0] == '\\' {
        if s.len() >= 2 {
            match esc_code_x(s[1]) {
                Some(c) => {
                    let tail = slice_subrange(s, 2, s.len());
                    proof {
                        assert(tail@ =~= s@.skip(2));
                    }
                    match str_body_x(tail) {
                        Some((mut v, rr)) => {
                            let ghost v0 = v@;
                            v.insert(0, c);
                            proof {
                                assert(v@ =~= seq![c] + v0);
                            }
                            Some((v, rr))
                        },
                        None => None,
                    }
                },
                None => None,
            }
        } else {
            None
        }
    } else {
        let tail = slice_subrange(s, 1, s.len());
        proof {
            assert(tail@ =~= s@.drop_first());
        }
        match str_body_x(tail) {
            Some((mut v, rr)) => {
                let ghost v0 = v@;
                v.insert(0, s[0]);
                proof {
                    assert(v@ =~= seq![s@[0]] + v0);
                }
                Some((v, rr))
            },
            None => None,
        }
    }
}

fn string_x<'a>(s: &'a [char]) -> (r: Option<(Vec<char>, &'a [char])>)
    ensures
        r is Some <==> sp_string(s@) is Some,
        r matches Some(p) ==> sp_string(s@) == Some((p.0@, p.1@)),
{
    let t = ws_x(s);
    if t.len() > 0 && t[0] == '"' {
        let body = slice_subrange(t, 1, t.len());
        proof {
            assert(body@ =~= skip_ws(s@).drop_first());
        }
        str_body_x(body)
    } else {
        None
    }
}

fn digits_x<'a>(s: &'a [char]) -> (r: (Vec<char>, &'a [char]))
    ensures
        sp_digits(s@) == (r.0@, r.1@),
    decreases s@.len(),
{
    if s.len() > 0 && is_digit_x(s[0]) {
        let tail = slice_subrange(s, 1, s.len());
        proof {
            assert(tail@ =~= s@.drop_first());
        }
        let (mut v, rr) = digits_x(tail);
        let ghost v0 = v@;
        v.insert(0, s[0]);
        proof {
            assert(v@ =~= seq![s@[0]] + v0);
        }
        (v, rr)
    } else {
        (Vec::new(), s)
    }
}

/// Digit sequences have non-negative values.
proof fn lemma_digits_val_nonneg(ds: Seq<char>)
    ensures
        digits_val(ds) >= 0,
    decreases ds.len(),
{
    if ds.len() > 0 {
        lemma_digits_val_nonneg(ds.drop_last());
    }
}

/// The value of a digit prefix never exceeds the value of the whole.
proof fn lemma_digits_val_prefix(ds: Seq<char>, i: int)
    requires
        0 <= i <= ds.len(),
    ensures
        digits_val(ds.take(i)) <= digits_val(ds),
    decreases ds.len() - i,
{
    if i == ds.len() {
        assert(ds.take(i) =~= ds);
    } else {
        assert(ds.take(i + 1).drop_last() =~= ds.take(i));
        assert(ds.take(i + 1).last() == ds[i]);
        lemma_digits_val_nonneg(ds.take(i));
        assert(digits_val(ds.take(i + 1)) == digits_val(ds.take(i)) * 10 + digit_val(ds[i]));
        assert(digit_val(ds[i]) >= 0);
        lemma_digits_val_prefix(ds, i + 1);
    }
}

/// The digit prefix that `sp_digits` returns holds only digits.
proof fn lemma_sp_digits_digits(s: Seq<char>)
    ensures
        forall|i: int| 0 <= i < sp_digits(s).0.len() ==> is_digit(sp_digits(s).0[i]),
    decreases s.len(),
{
    if s.len() > 0 && is_digit(s[0]) {
        lemma_sp_digits_digits(s.drop_first());
        let d0 = sp_digits(s.drop_first()).0;
        assert forall|i: int| 0 <= i < sp_digits(s).0.len() implies is_digit(
            sp_digits(s).0[i],
        ) by {
            assert(sp_digits(s).0 == seq![s[0]] + d0);
            if i > 0 {
                assert(sp_digits(s).0[i] == d0[i - 1]);
            }
        }
    }
}

fn progress_x<'a>(s: &'a [char]) -> (r: Option<(u8, &'a [char])>)
    ensures
        r is Some <==> sp_progress(s@) is Some,
        r matches Some(p) ==> sp_progress(s@) == Some((p.0, p.1@)),
{
    let t = ws_x(s);
    let (ds, rr) = digits_x(t);
    proof {
        lemma_sp_digits_digits(t@);
    }
    if ds.len() == 0 {
        return None;
    }
    let mut acc: u32 = 0;
    let mut i: usize = 0;
    while i < ds.len()
        invariant
            i <= ds.len(),
            acc <= 255,
            acc as int == digits_val(ds@.take(i as int)),
            forall|j: int| 0 <= j < ds@.len() ==> is_digit(ds@[j]),
            sp_digits(skip_ws(s@)) == (ds@, rr@),
            ds@.len() > 0,
        decreases ds.len() - i,
    {
        let d = digit_val_x(ds[i]);
        proof {
            assert(ds@.take(i as int + 1).drop_last() =~= ds@.take(i as int));
            assert(ds@.take(i as int + 1).last() == ds@[i as int]);
            assert(digits_val(ds@.take(i as int + 1)) == acc as int * 10 + digit_val(
                ds@[i as int],
            ));
        }
        let n2: u32 = acc * 10 + (d as u32);
        if n2 > 255 {
            proof {
                lemma_digits_val_prefix(ds@, i as int + 1);
                assert(digits_val(ds@) > 255);
            }
            return None;
        }
        acc = n2;
        i += 1;
    }
    proof {
        assert(ds@.take(ds@.len() as int) =~= ds@);
    }
    Some((acc as u8, rr))
}

fn status_of_x(nm: &Vec<char>) -> (r: Option<Status>)
    ensures
        r == status_of(nm@),
{
    if nm.len() == 7 && nm[0] == 'p' && nm[1] == 'e' && nm[2] == 'n' && nm[3] == 'd'
        && nm[4] == 'i' && nm[5] == 'n' && nm[6] == 'g' {
        proof {
            assert(nm@ =~= status_name(Status::Pending));
        }
        Some(Status::Pending)
    } else if nm.len() == 9 && nm[0] == 'c' && nm[1] == 'o' && nm[2] == 'm' && nm[3] == 'p'
        && nm[4] == 'l' && nm[5] == 'e' && nm[6] == 't' && nm[7] == 'e' && nm[8] == 'd' {
        proof {
            assert(nm@ =~= status_name(Status::Completed));
            assert(nm@ != status_name(Status::Pending));
        }
        Some(Status::Completed)
    } else if nm.len() == 6 && nm[0] == 'f' && nm[1] == 'a' && nm[2] == 'i' && nm[3] == 'l'
        && nm[4] == 'e' && nm[5] == 'd' {
        proof {
            assert(nm@ =~= status_name(Status::Failed));
            assert(nm@ != status_name(Status::Pending));
            assert(nm@ != status_name(Status::Completed));
        }
        Some(Status::Failed)
    } else {
        proof {
            if nm@ == status_name(Status::Pending) {
                assert(nm@.len() == 7 && nm@[0] == 'p' && nm@[1] == 'e' && nm@[2] == 'n'
                    && nm@[3] == 'd' && nm@[4] == 'i' && nm@[5] == 'n' && nm@[6] == 'g');
            }
            if nm@ == status_name(Status::Completed) {
                assert(nm@.len() == 9 && nm@[0] == 'c' && nm@[1] == 'o' && nm@[2] == 'm'
                    && nm@[3] == 'p' && nm@[4] == 'l' && nm@[5] == 'e' && nm@[6] == 't'
                    && nm@[7] == 'e' && nm@[8] == 'd');
            }
            if nm@ == status_name(Status::Failed) {
                assert(nm@.len() == 6 && nm@[0] == 'f' && nm@[1] == 'a' && nm@[2] == 'i'
                    && nm@[3] == 'l' && nm@[4] == 'e' && nm@[5] == 'd');
            }
        }
        None
    }
}

/// Whether a parsed token equals the expected key.
fn key_eq(v: &Vec<char>, k: &Vec<char>) -> (r: bool)
    ensures
        r == (v@ == k@),
{
    if v.len() != k.len() {
        proof {
            if v@ == k@ {
                assert(v@.len() == k@.len());
            }
        }
        return false;
    }
    let mut i: usize = 0;
    while i < v.len()
        invariant
            i <= v.len(),
            v@.len() == k@.len(),
            forall|j: int| 0 <= j < i ==> v@[j] == k@[j],
        decreases v.len() - i,
    {
        if v[i] != k[i] {
            proof {
                if v@ == k@ {
                    assert(v@[i as int] == k@[i as int]);
                }
            }
            return false;
        }
        i += 1;
    }
    proof {
        assert(v@ =~= k@);
    }
    true
}

fn field_x<'a>(s: &'a [char], k: &Vec<char>) -> (r: Option<&'a [char]>)
    ensures
        r is Some <==> sp_field(s@, k@) is Some,
        r matches Some(t) ==> sp_field(s@, k@) == Some(t@),
{
    match string_x(s) {
        Some((name, rr)) => {
            if key_eq(&name, k) {
                char_x(rr, ':')
            } else {
                None
            }
        },
        None => None,
    }
}

fn opt_str_x<'a>(s: &'a [char]) -> (r: Option<(Option<String>, &'a [char])>)
    ensures
        r is Some <==> sp_opt_str(s@) is Some,
        r matches Some(p) ==> sp_opt_str(s@) == Some((
            match p.0 {
                Some(f) => Some(f@),
                None => None,
            },
            p.1@,
        )),
{
    let t = ws_x(s);
    if t.len() >= 4 && t[0] == 'n' && t[1] == 'u' && t[2] == 'l' && t[3] == 'l' {
        let rr = slice_subrange(t, 4, t.len());
        proof {
            assert(t@.subrange(0, 4) =~= null_lit());
            assert(rr@ =~= t@.skip(4));
        }
        Some((None, rr))
    } else {
        proof {
            if t@.len() >= 4 && t@.subrange(0, 4) == null_lit() {
                assert(t@[0] == t@.subrange(0, 4)[0]);
                assert(t@[1] == t@.subrange(0, 4)[1]);
                assert(t@[2] == t@.subrange(0, 4)[2]);
                assert(t@[3] == t@.subrange(0, 4)[3]);
            }
        }
        match string_x(s) {
            Some((v, rr)) => Some((Some(string_of(v)), rr)),
            None => None,
        }
    }
}

/// Parse one record object.
fn record_x<'a>(s: &'a [char]) -> (r: Option<(Download, &'a [char])>)
    ensures
        r is Some <==> sp_record(s@) is Some,
        r matches Some(p) ==> sp_record(s@) == Some((p.0@, p.1@)),
{
    let k_id: Vec<char> = vec!['i', 'd'];
    let k_url: Vec<char> = vec!['u', 'r', 'l'];
    let k_status: Vec<char> = vec!['s', 't', 'a', 't', 'u', 's'];
    let k_progress: Vec<char> = vec!['p', 'r', 'o', 'g', 'r', 'e', 's', 's'];
    let k_file_name: Vec<char> = vec!['f', 'i', 'l', 'e', '_', 'n', 'a', 'm', 'e'];
    proof {
        assert(k_id@ =~= key_id());
        assert(k_url@ =~= key_url());
        assert(k_status@ =~= key_status());
        assert(k_progress@ =~= key_progress());
        assert(k_file_name@ =~= key_file_name());
    }
    let r0 = match char_x(s, '{') {
        Some(t) => t,
        None => {
            return None;
        },
    };
    let r1 = match field_x(r0, &k_id) {
        Some(t) => t,
        None => {
            return None;
        },
    };
    let (id, r2) = match string_x(r1) {
        Some(p) => p,
        None => {
            return None;
        },
    };
    let r3 = match char_x(r2, ',') {
        Some(t) => t,
        None => {
            return None;
        },
    };
    let r4 = match field_x(r3, &k_url) {
        Some(t) => t,
        None => {
            return None;
        },
    };
    let (url, r5) = match string_x(r4) {
        Some(p) => p,
        None => {
            return None;
        },
    };
    let r6 = match char_x(r5, ',') {
        Some(t) => t,
        None => {
            return None;
        },
    };
    let r7 = match field_x(r6, &k_status) {
        Some(t) => t,
        None => {
            return None;
        },
    };
    let (nm, r8) = match string_x(r7) {
        Some(p) => p,
        None => {
            return None;
        },
    };
    let st = match status_of_x(&nm) {
        Some(st) => st,
        None => {
            return None;
        },
    };
    let r9 = match char_x(r8, ',') {
        Some(t) => t,
        None => {
            return None;
        },
    };
    let r10 = match field_x(r9, &k_progress) {
        Some(t) => t,
        None => {
            return None;
        },
    };
    let (p, r11) = match progress_x(r10) {
        Some(pp) => pp,
        None => {
            return None;
        },
    };
    let r12 = match char_x(r11, ',') {
        Some(t) => t,
        None => {
            return None;
        },
    };
    let r13 = match field_x(r12, &k_file_name) {
        Some(t) => t,
        None => {
            return None;
        },
    };
    let (fnm, r14) = match opt_str_x(r13) {
        Some(pp) => pp,
        None => {
            return None;
        },
    };
    let rest = match char_x(r14, '}') {
        Some(t) => t,
        None => {
            return None;
        },
    };
    let d = Download {
        id: string_of(id),
        url: string_of(url),
        status: st,
        progress: p,
        file_name: fnm,
    };
    Some((d, rest))
}

/// Parse one top-level entry.
fn entry_x<'a>(s: &'a [char]) -> (r: Option<(Download, &'a [char])>)
    ensures
        r is Some <==> sp_entry(s@) is Some,
        r matches Some(p) ==> sp_entry(s@) == Some((p.0@, p.1@)),
{
    let r0 = match string_x(s) {
        Some((_k, t)) => t,
        None => {
            return None;
        },
    };
    let r1 = match char_x(r0, ':') {
        Some(t) => t,
        None => {
            return None;
        },
    };
    record_x(r1)
}

/// Parse the entries of a non-empty collection, through its closing brace.
fn entries_x<'a>(s: &'a [char]) -> (r: Option<(Vec<Download>, &'a [char])>)
    ensures
        r is Some <==> sp_entries(s@) is Some,
        r matches Some(p) ==> sp_entries(s@) == Some((models(p.0@), p.1@)),
    decreases s@.len(),
{
    let (d, rr) = match entry_x(s) {
        Some(p) => p,
        None => {
            return None;
        },
    };
    let t = ws_x(rr);
    if t.len() > 0 && t[0] == ',' {
        let r2 = slice_subrange(t, 1, t.len());
        proof {
            assert(r2@ =~= skip_ws(rr@).drop_first());
        }
        if r2.len() < s.len() {
            match entries_x(r2) {
                Some((mut ds, r3)) => {
                    let ghost ds0 = ds@;
                    ds.insert(0, d);
                    proof {
                        assert(models(ds@) =~= seq![d@] + models(ds0));
                    }
                    Some((ds, r3))
                },
                None => None,
            }
        } else {
            None
        }
    } else if t.len() > 0 && t[0] == '}' {
        let r3 = slice_subrange(t, 1, t.len());
        proof {
            assert(r3@ =~= skip_ws(rr@).drop_first());
        }
        let mut ds: Vec<Download> = Vec::new();
        ds.push(d);
        proof {
            assert(models(ds@) =~= seq![d@]);
        }
        Some((ds, r3))
    } else {
        None
    }
}

/// Parse a whole snapshot document: the stored records when the text is a
/// well-shaped snapshot, `None` otherwise.
pub fn parse_snapshot(text: &str) -> (r: Option<Vec<Download>>)
    ensures
        r is Some <==> sp_doc(text@) is Some,
        r matches Some(v) ==> sp_doc(text@) == Some(models(v@)),
{
    let cs = chars_of(text);
    let s = cs.as_slice();
    let r0 = match char_x(s, '{') {
        Some(t) => t,
        None => {
            return None;
        },
    };
    let t = ws_x(r0);
    if t.len() > 0 && t[0] == '}' {
        let after = slice_subrange(t, 1, t.len());
        proof {
            assert(after@ =~= skip_ws(r0@).drop_first());
        }
        let e = ws_x(after);
        if e.len() == 0 {
            let ds: Vec<Download> = Vec::new();
            proof {
                assert(models(ds@) =~= Seq::<DownloadModel>::empty());
            }
            Some(ds)
        } else {
            None
        }
    } else {
        match entries_x(r0) {
            Some((ds, r2)) => {
                let e = ws_x(r2);
                if e.len() == 0 {
                    Some(ds)
                } else {
                    None
                }
            },
            None => None,
        }
    }
}

} // verus!
