//! The persistence codec: a collection of records is stored as a canonical
//! JSON array of objects, one object per record, the fields always in the
//! same order and text fields written verbatim (which is why the store only
//! holds records whose texts are safe, see [`crate::person::safe_seq`]).
//!
//! [`spec_encode`] is the mathematical form of the format. The encoder
//! produces exactly it; the decoder accepts a text if and only if it is the
//! encoding of some well-formed collection, and then returns that
//! collection.

use vstd::prelude::*;

use crate::person::{is_safe_char, people_wf, person_wf, safe_seq, Person, PersonView};

verus! {

/// The decimal digit for a value below ten.
pub open spec fn digit_char(d: nat) -> char {
    if d == 0 {
        '0'
    } else if d == 1 {
        '1'
    } else if d == 2 {
        '2'
    } else if d == 3 {
        '3'
    } else if d == 4 {
        '4'
    } else if d == 5 {
        '5'
    } else if d == 6 {
        '6'
    } else if d == 7 {
        '7'
    } else if d == 8 {
        '8'
    } else {
        '9'
    }
}

/// A decimal digit character.
pub open spec fn is_digit_char(c: char) -> bool {
    '0' as u32 <= c as u32 <= '9' as u32
}

/// The value of a decimal digit character.
pub open spec fn digit_val(c: char) -> nat {
    (c as u32 - '0' as u32) as nat
}

/// The canonical decimal writing of a natural number: no sign, no leading
/// zero except for the number zero itself.
pub open spec fn spec_digits(n: nat) -> Seq<char>
    decreases n,
{
    if n < 10 {
        seq![digit_char(n)]
    } else {
        spec_digits(n / 10).push(digit_char(n % 10))
    }
}

/// The value that a sequence of digit characters denotes.
pub open spec fn digits_val(s: Seq<char>) -> nat
    decreases s.len(),
{
    if s.len() == 0 {
        0
    } else {
        digits_val(s.drop_last()) * 10 + digit_val(s.last())
    }
}

/// Every character of the sequence is a decimal digit.
pub open spec fn all_digits(s: Seq<char>) -> bool {
    forall|i: int| 0 <= i < s.len() ==> is_digit_char(#[trigger] s[i])
}

/// The canonical decimal writing is non-empty, consists of digits, has no
/// leading zero unless it is "0" itself, and denotes the number it was
/// written from.
pub proof fn lemma_spec_digits_props(n: nat)
    ensures
        spec_digits(n).len() >= 1,
        all_digits(spec_digits(n)),
        spec_digits(n).len() > 1 ==> spec_digits(n)[0] != '0',
        n >= 10 ==> spec_digits(n).len() > 1,
        digits_val(spec_digits(n)) == n,
    decreases n,
{
    if n < 10 {
        assert(spec_digits(n) == seq![digit_char(n)]);
        assert(spec_digits(n).drop_last() =~= Seq::<char>::empty());
        assert(digits_val(Seq::<char>::empty()) == 0);
        assert(digits_val(spec_digits(n)) == digit_val(digit_char(n)));
        assert(digit_val(digit_char(n)) == n);
    } else {
        lemma_spec_digits_props(n / 10);
        let rec = spec_digits(n / 10);
        let whole = spec_digits(n);
        assert(whole == rec.push(digit_char(n % 10)));
        assert(whole[0] == rec[0]);
        assert(n / 10 >= 1);
        assert(rec[0] != '0') by {
            if rec.len() == 1 {
                assert(rec[0] == digit_char(n / 10));
            }
        }
        assert(whole.drop_last() =~= rec);
        assert(whole.last() == digit_char(n % 10));
        assert(digit_val(digit_char(n % 10)) == n % 10);
        assert(digits_val(whole) == (n / 10) * 10 + n % 10);
        assert((n / 10) * 10 + n % 10 == n) by (nonlinear_arith);
    }
}

/// The value of a prefix of a digit writing never exceeds the value of the
/// whole writing.
pub proof fn lemma_digits_val_prefix_le(s: Seq<char>, k: int)
    requires
        0 <= k <= s.len(),
    ensures
        digits_val(s.take(k)) <= digits_val(s),
    decreases s.len() - k,
{
    if k == s.len() {
        assert(s.take(k) =~= s);
    } else {
        lemma_digits_val_prefix_le(s, k + 1);
        assert(s.take(k + 1).drop_last() =~= s.take(k));
        assert(digits_val(s.take(k + 1)) == digits_val(s.take(k)) * 10 + digit_val(
            s.take(k + 1).last(),
        ));
    }
}

/// In one text, two canonical digit runs that start at the same place and
/// are each followed by a non-digit (or the end) are the same run and
/// denote the same number.
pub proof fn lemma_digit_run_unique(s: Seq<char>, start: int, v1: nat, e1: int, v2: nat, e2: int)
    requires
        0 <= start,
        start <= e1 <= s.len(),
        start <= e2 <= s.len(),
        s.subrange(start, e1) == spec_digits(v1),
        s.subrange(start, e2) == spec_digits(v2),
        e1 == s.len() || !is_digit_char(s[e1]),
        e2 == s.len() || !is_digit_char(s[e2]),
    ensures
        v1 == v2,
        e1 == e2,
{
    lemma_spec_digits_props(v1);
    lemma_spec_digits_props(v2);
    if e1 < e2 {
        assert(s[e1] == s.subrange(start, e2)[e1 - start]);
        assert(is_digit_char(s[e1]));
        assert(e1 < s.len());
    } else if e2 < e1 {
        assert(s[e2] == s.subrange(start, e1)[e2 - start]);
        assert(is_digit_char(s[e2]));
        assert(e2 < s.len());
    }
    assert(e1 == e2);
    assert(spec_digits(v1) == spec_digits(v2));
    assert(v1 == digits_val(spec_digits(v1)));
    assert(v2 == digits_val(spec_digits(v2)));
}

/// In one text, two quote positions that each close a run of safe
/// characters begun at the same place are the same position.
pub proof fn lemma_quote_unique(s: Seq<char>, start: int, e1: int, e2: int)
    requires
        0 <= start,
        start <= e1 < s.len(),
        start <= e2 < s.len(),
        s[e1] == '"',
        s[e2] == '"',
        safe_seq(s.subrange(start, e1)),
        safe_seq(s.subrange(start, e2)),
    ensures
        e1 == e2,
{
    if e1 < e2 {
        assert(s[e1] == s.subrange(start, e2)[e1 - start]);
        assert(is_safe_char(s[e1]));
    } else if e2 < e1 {
        assert(s[e2] == s.subrange(start, e1)[e2 - start]);
        assert(is_safe_char(s[e2]));
    }
}

/// The fixed pieces of one encoded record, in the order they appear.
pub open spec fn lit_id() -> Seq<char> {
    "{\"id\":"@
}

pub open spec fn lit_name() -> Seq<char> {
    ",\"name\":\""@
}

pub open spec fn lit_category() -> Seq<char> {
    "\",\"category\":\""@
}

pub open spec fn lit_age() -> Seq<char> {
    "\",\"age\":"@
}

pub open spec fn lit_created() -> Seq<char> {
    ",\"created_at\":\""@
}

pub open spec fn lit_close() -> Seq<char> {
    "\"}"@
}

/// The encoding of one record: an object with the five fields in a fixed
/// order, numbers in canonical decimal, texts verbatim between quotes.
pub open spec fn spec_enc_person(p: PersonView) -> Seq<char> {
    lit_id() + spec_digits(p.id) + lit_name() + p.name + lit_category() + p.category + lit_age()
        + spec_digits(p.age) + lit_created() + p.created_at + lit_close()
}

/// The encodings of the records, separated by commas.
pub open spec fn spec_enc_items(s: Seq<PersonView>) -> Seq<char>
    decreases s.len(),
{
    if s.len() == 0 {
        Seq::<char>::empty()
    } else if s.len() == 1 {
        spec_enc_person(s[0])
    } else {
        spec_enc_person(s[0]) + seq![','] + spec_enc_items(s.drop_first())
    }
}

/// The encoding of a whole collection: the record encodings, separated by
/// commas, between square brackets.
pub open spec fn spec_encode(s: Seq<PersonView>) -> Seq<char> {
    seq!['['] + spec_enc_items(s) + seq![']']
}

/// Appending a record to a collection appends its encoding (preceded by a
/// comma unless the collection was empty) to the encoded items.
pub proof fn lemma_enc_items_push(s: Seq<PersonView>, p: PersonView)
    ensures
        spec_enc_items(s.push(p)) == if s.len() == 0 {
            spec_enc_person(p)
        } else {
            spec_enc_items(s) + seq![','] + spec_enc_person(p)
        },
    decreases s.len(),
{
    let whole = s.push(p);
    if s.len() == 0 {
        assert(whole.len() == 1);
        assert(whole[0] == p);
    } else {
        lemma_enc_items_push(s.drop_first(), p);
        assert(whole.drop_first() =~= s.drop_first().push(p));
        assert(whole[0] == s[0]);
        if s.len() == 1 {
            assert(spec_enc_items(whole) == spec_enc_person(s[0]) + seq![','] + spec_enc_items(
                whole.drop_first(),
            ));
            assert(spec_enc_items(whole.drop_first()) == spec_enc_person(p));
        } else {
            assert(spec_enc_items(whole) =~= spec_enc_items(s) + seq![','] + spec_enc_person(p));
        }
    }
}

/// The fixed pieces have the lengths and the marker characters that the
/// decoder steers by.
pub proof fn lemma_lits()
    ensures
        lit_id().len() == 6,
        lit_name().len() == 9,
        lit_category().len() == 14,
        lit_age().len() == 8,
        lit_created().len() == 15,
        lit_close().len() == 2,
        lit_id()[0] == '{',
        lit_name()[0] == ',',
        lit_category()[0] == '"',
        lit_age()[0] == '"',
        lit_created()[0] == ',',
        lit_close()[0] == '"',
        lit_close()[1] == '}',
        !is_digit_char(','),
{
    reveal_strlit("{\"id\":");
    reveal_strlit(",\"name\":\"");
    reveal_strlit("\",\"category\":\"");
    reveal_strlit("\",\"age\":");
    reveal_strlit(",\"created_at\":\"");
    reveal_strlit("\"}");
}

/// Where each piece of one encoded record lies: the encoding is the six
/// fixed pieces with the five field writings between them, at the offsets
/// their lengths add up to.
pub proof fn lemma_enc_person_parts(q: PersonView)
    ensures
        ({
            let e = spec_enc_person(q);
            let d1 = spec_digits(q.id).len() as int;
            let nm = q.name.len() as int;
            let ct = q.category.len() as int;
            let d2 = spec_digits(q.age).len() as int;
            let cr = q.created_at.len() as int;
            &&& e.len() == 54 + d1 + nm + ct + d2 + cr
            &&& e.subrange(0, 6) == lit_id()
            &&& e.subrange(6, 6 + d1) == spec_digits(q.id)
            &&& e.subrange(6 + d1, 15 + d1) == lit_name()
            &&& e.subrange(15 + d1, 15 + d1 + nm) == q.name
            &&& e.subrange(15 + d1 + nm, 29 + d1 + nm) == lit_category()
            &&& e.subrange(29 + d1 + nm, 29 + d1 + nm + ct) == q.category
            &&& e.subrange(29 + d1 + nm + ct, 37 + d1 + nm + ct) == lit_age()
            &&& e.subrange(37 + d1 + nm + ct, 37 + d1 + nm + ct + d2) == spec_digits(q.age)
            &&& e.subrange(37 + d1 + nm + ct + d2, 52 + d1 + nm + ct + d2) == lit_created()
            &&& e.subrange(52 + d1 + nm + ct + d2, 52 + d1 + nm + ct + d2 + cr) == q.created_at
            &&& e.subrange(52 + d1 + nm + ct + d2 + cr, 54 + d1 + nm + ct + d2 + cr)
                == lit_close()
        }),
{
    lemma_lits();
    let e = spec_enc_person(q);
    let d1 = spec_digits(q.id).len() as int;
    let nm = q.name.len() as int;
    let ct = q.category.len() as int;
    let d2 = spec_digits(q.age).len() as int;
    let cr = q.created_at.len() as int;
    assert(e.len() == 54 + d1 + nm + ct + d2 + cr);
    assert(e.subrange(0, 6) =~= lit_id());
    assert(e.subrange(6, 6 + d1) =~= spec_digits(q.id));
    assert(e.subrange(6 + d1, 15 + d1) =~= lit_name());
    assert(e.subrange(15 + d1, 15 + d1 + nm) =~= q.name);
    assert(e.subrange(15 + d1 + nm, 29 + d1 + nm) =~= lit_category());
    assert(e.subrange(29 + d1 + nm, 29 + d1 + nm + ct) =~= q.category);
    assert(e.subrange(29 + d1 + nm + ct, 37 + d1 + nm + ct) =~= lit_age());
    assert(e.subrange(37 + d1 + nm + ct, 37 + d1 + nm + ct + d2) =~= spec_digits(q.age));
    assert(e.subrange(37 + d1 + nm + ct + d2, 52 + d1 + nm + ct + d2) =~= lit_created());
    assert(e.subrange(52 + d1 + nm + ct + d2, 52 + d1 + nm + ct + d2 + cr) =~= q.created_at);
    assert(e.subrange(52 + d1 + nm + ct + d2 + cr, 54 + d1 + nm + ct + d2 + cr) =~= lit_close());
}

/// The decimal digit, as text, of a value below ten.
fn digit_str(d: usize) -> (r: &'static str)
    requires
        d < 10,
    ensures
        r@ == seq![digit_char(d as nat)],
{
    proof {
        reveal_strlit("0");
        reveal_strlit("1");
        reveal_strlit("2");
        reveal_strlit("3");
        reveal_strlit("4");
        reveal_strlit("5");
        reveal_strlit("6");
        reveal_strlit("7");
        reveal_strlit("8");
        reveal_strlit("9");
    }
    let r = match d {
        0 => "0",
        1 => "1",
        2 => "2",
        3 => "3",
        4 => "4",
        5 => "5",
        6 => "6",
        7 => "7",
        8 => "8",
        _ => "9",
    };
    proof {
        assert(r@ =~= seq![digit_char(d as nat)]);
    }
    r
}

/// Write a number in canonical decimal.
pub fn fmt_usize(x: usize) -> (r: String)
    ensures
        r@ == spec_digits(x as nat),
    decreases x,
{
    if x < 10 {
        digit_str(x).to_owned()
    } else {
        let mut r = fmt_usize(x / 10);
        r.append(digit_str(x % 10));
        proof {
            assert(r@ =~= spec_digits((x / 10) as nat).push(digit_char((x % 10) as nat)));
        }
        r
    }
}

/// Write one record in the persisted form.
pub fn encode_person(p: &Person) -> (r: String)
    ensures
        r@ == spec_enc_person(p@),
{
    let mut r = String::new();
    r.append("{\"id\":");
    let ids = fmt_usize(p.id);
    r.append(ids.as_str());
    r.append(",\"name\":\"");
    r.append(p.name.as_str());
    r.append("\",\"category\":\"");
    r.append(p.category.as_str());
    r.append("\",\"age\":");
    let ages = fmt_usize(p.age);
    r.append(ages.as_str());
    r.append(",\"created_at\":\"");
    r.append(p.created_at.as_str());
    r.append("\"}");
    proof {
        assert(r@ =~= spec_enc_person(p@));
    }
    r
}

/// Write a whole collection in the persisted form.
pub fn encode(people: &Vec<Person>) -> (r: String)
    ensures
        r@ == spec_encode(people.deep_view()),
{
    let ghost pv = people.deep_view();
    let mut r = String::new();
    r.append("[");
    proof {
        reveal_strlit("[");
        reveal_strlit("]");
        assert(pv.len() == people@.len());
        assert(r@ =~= seq!['['] + spec_enc_items(pv.take(0)));
    }
    let mut k: usize = 0;
    while k < people.len()
        invariant
            k <= people@.len(),
            pv == people.deep_view(),
            pv.len() == people@.len(),
            r@ == seq!['['] + spec_enc_items(pv.take(k as int)),
        decreases people@.len() - k,
    {
        if k > 0 {
            r.append(",");
        }
        let ps = encode_person(&people[k]);
        r.append(ps.as_str());
        proof {
            reveal_strlit(",");
            assert(people[k as int].deep_view() == pv[k as int]);
            lemma_enc_items_push(pv.take(k as int), pv[k as int]);
            assert(pv.take(k as int).push(pv[k as int]) =~= pv.take(k + 1));
            assert(r@ =~= seq!['['] + spec_enc_items(pv.take(k + 1)));
        }
        k += 1;
    }
    r.append("]");
    proof {
        assert(pv.take(pv.len() as int) =~= pv);
        assert(r@ =~= spec_encode(pv));
    }
    r
}

/// Match one fixed piece of the format at position `i`.
fn expect_lit(s: &str, n: usize, i: usize, lit: &str) -> (r: Option<usize>)
    requires
        n == s@.len(),
        i <= n,
    ensures
        match r {
            Some(j) => j == i + lit@.len() && j <= n && s@.subrange(i as int, j as int) == lit@,
            None => i + lit@.len() > n || s@.subrange(i as int, i + lit@.len()) != lit@,
        },
{
    let m = lit.unicode_len();
    if m > n - i {
        return None;
    }
    let mut k: usize = 0;
    while k < m
        invariant
            n == s@.len(),
            i + m <= n,
            m == lit@.len(),
            k <= m,
            forall|t: int| 0 <= t < k ==> s@[i + t] == lit@[t],
        decreases m - k,
    {
        if s.get_char(i + k) != lit.get_char(k) {
            proof {
                assert(s@.subrange(i as int, i + m)[k as int] == s@[i + k]);
            }
            return None;
        }
        k += 1;
    }
    proof {
        assert(s@.subrange(i as int, (i + m) as int) =~= lit@);
    }
    Some(i + m)
}

/// The value of a digit character, or nothing for any other character.
fn char_digit_val(c: char) -> (r: Option<usize>)
    ensures
        match r {
            Some(d) => is_digit_char(c) && d < 10 && d as nat == digit_val(c) && c == digit_char(
                d as nat,
            ),
            None => !is_digit_char(c),
        },
{
    let u = c as u32;
    if 48 <= u && u <= 57 {
        Some((u - 48) as usize)
    } else {
        None
    }
}

/// Read the rest of a digit run whose beginning denotes `acc`.
fn digits_tail(s: &str, n: usize, i: usize, j: usize, acc: usize) -> (r: Option<(usize, usize)>)
    requires
        n == s@.len(),
        i < j <= n,
        s@.subrange(i as int, j as int) == spec_digits(acc as nat),
    ensures
        match r {
            Some((v, e)) => i < e <= n && s@.subrange(i as int, e as int) == spec_digits(v as nat)
                && (e == n || !is_digit_char(s@[e as int])),
            None => forall|v: usize, e: int|
                i < e <= n && (e == n || !is_digit_char(s@[e])) ==> s@.subrange(i as int, e)
                    != spec_digits(v as nat),
        },
    decreases n - j,
{
    if j == n {
        return Some((acc, j));
    }
    let c = s.get_char(j);
    match char_digit_val(c) {
        None => Some((acc, j)),
        Some(d) => {
            proof {
                lemma_spec_digits_props(acc as nat);
            }
            let next = match acc.checked_mul(10) {
                Some(t) => t.checked_add(d),
                None => None,
            };
            match next {
                Some(acc2) => {
                    proof {
                        assert(acc2 as nat == acc as nat * 10 + d as nat);
                        assert(acc2 as nat >= 10 || acc == 0);
                        if acc == 0 {
                            assert(spec_digits(0).len() == 1);
                            assert(s@[i as int] == spec_digits(0)[0]);
                            assert(spec_digits(0)[0] == '0');
                            assert(j == i + 1);
                        }
                        assert(acc >= 1 ==> acc2 as nat >= 10);
                        if acc >= 1 {
                            let a2 = acc2 as nat;
                            assert(a2 / 10 == acc as nat && a2 % 10 == d as nat) by (nonlinear_arith)
                                requires
                                    a2 == acc as nat * 10 + d as nat,
                                    d < 10,
                            ;
                            assert(spec_digits(a2) == spec_digits(acc as nat).push(
                                digit_char(d as nat),
                            ));
                            assert(s@.subrange(i as int, j + 1) =~= s@.subrange(
                                i as int,
                                j as int,
                            ).push(s@[j as int]));
                            assert(s@[j as int] == digit_char(d as nat));
                        }
                    }
                    if acc == 0 {
                        // A run that begins with '0' and goes on is not canonical.
                        proof {
                            assert forall|v: usize, e: int|
                                i < e <= n && (e == n || !is_digit_char(s@[e])) implies s@.subrange(
                                i as int,
                                e,
                            ) != spec_digits(v as nat) by {
                                lemma_spec_digits_props(v as nat);
                                if s@.subrange(i as int, e) == spec_digits(v as nat) {
                                    assert(spec_digits(v as nat)[0] == s@[i as int]);
                                    if e > i + 1 {
                                        assert(spec_digits(v as nat)[0] != '0');
                                    } else {
                                        assert(e == i + 1);
                                        assert(e < n);
                                        assert(s@[e] == c);
                                    }
                                }
                            }
                        }
                        None
                    } else {
                        digits_tail(s, n, i, j + 1, acc2)
                    }
                },
                None => {
                    // The run denotes more than the machine can hold, so no
                    // record field writes it.
                    proof {
                        let run = s@.subrange(i as int, j + 1);
                        assert(run =~= s@.subrange(i as int, j as int).push(s@[j as int]));
                        assert(run.drop_last() =~= s@.subrange(i as int, j as int));
                        assert(digits_val(run) == acc as nat * 10 + digit_val(c));
                        assert(digits_val(run) > usize::MAX) by {
                            assert(acc as nat * 10 + d as nat > usize::MAX);
                        }
                        assert forall|v: usize, e: int|
                            i < e <= n && (e == n || !is_digit_char(s@[e])) implies s@.subrange(
                            i as int,
                            e,
                        ) != spec_digits(v as nat) by {
                            lemma_spec_digits_props(v as nat);
                            if s@.subrange(i as int, e) == spec_digits(v as nat) {
                                assert(all_digits(s@.subrange(i as int, e)));
                                if e <= j {
                                    if e < j {
                                        assert(s@[e] == s@.subrange(i as int, j as int)[e - i]);
                                        assert(is_digit_char(s@[e]));
                                    } else {
                                        assert(s@[e] == c);
                                    }
                                } else {
                                    assert(s@.subrange(i as int, e).take(j + 1 - i) =~= run);
                                    lemma_digits_val_prefix_le(s@.subrange(i as int, e), j + 1 - i);
                                    assert(digits_val(s@.subrange(i as int, e)) >= digits_val(run));
                                    assert(v as nat == digits_val(spec_digits(v as nat)));
                                }
                            }
                        }
                    }
                    None
                },
            }
        },
    }
}

/// Read a canonical digit run at position `i`: its value and where it ends.
/// Nothing is returned unless a maximal digit run stands there and its value
/// fits the machine.
fn parse_digits(s: &str, n: usize, i: usize) -> (r: Option<(usize, usize)>)
    requires
        n == s@.len(),
        i <= n,
    ensures
        match r {
            Some((v, e)) => i < e <= n && s@.subrange(i as int, e as int) == spec_digits(v as nat)
                && (e == n || !is_digit_char(s@[e as int])),
            None => forall|v: usize, e: int|
                i < e <= n && (e == n || !is_digit_char(s@[e])) ==> s@.subrange(i as int, e)
                    != spec_digits(v as nat),
        },
{
    if i == n {
        return None;
    }
    let c = s.get_char(i);
    match char_digit_val(c) {
        None => {
            proof {
                assert forall|v: usize, e: int|
                    i < e <= n && (e == n || !is_digit_char(s@[e])) implies s@.subrange(i as int, e)
                    != spec_digits(v as nat) by {
                    lemma_spec_digits_props(v as nat);
                    if s@.subrange(i as int, e) == spec_digits(v as nat) {
                        assert(spec_digits(v as nat)[0] == s@[i as int]);
                        assert(is_digit_char(s@[i as int]));
                    }
                }
            }
            None
        },
        Some(d) => {
            proof {
                assert(s@.subrange(i as int, i + 1) =~= seq![c]);
                assert(spec_digits(d as nat) == seq![digit_char(d as nat)]);
            }
            digits_tail(s, n, i, i + 1, d)
        },
    }
}

/// Find the quote that closes a text field begun at `i`, all characters
/// before it being safe; `j` is how far the scan has come.
fn scan_text(s: &str, n: usize, i: usize, j: usize) -> (r: Option<usize>)
    requires
        n == s@.len(),
        i <= j <= n,
        safe_seq(s@.subrange(i as int, j as int)),
    ensures
        match r {
            Some(e) => i <= e < n && s@[e as int] == '"' && safe_seq(
                s@.subrange(i as int, e as int),
            ),
            None => forall|e: int|
                i <= e < n && s@[e] == '"' ==> !safe_seq(s@.subrange(i as int, e)),
        },
    decreases n - j,
{
    if j == n {
        proof {
            assert forall|e: int| i <= e < n && s@[e] == '"' implies !safe_seq(
                s@.subrange(i as int, e),
            ) by {
                assert(s@[e] == s@.subrange(i as int, n as int)[e - i]);
                assert(is_safe_char(s@[e]));
            }
        }
        return None;
    }
    let c = s.get_char(j);
    if c == '"' {
        return Some(j);
    }
    if c == '\\' || (c as u32) < 0x20 {
        proof {
            assert forall|e: int| i <= e < n && s@[e] == '"' implies !safe_seq(
                s@.subrange(i as int, e),
            ) by {
                if e < j {
                    assert(s@[e] == s@.subrange(i as int, j as int)[e - i]);
                    assert(is_safe_char(s@[e]));
                } else if e > j {
                    assert(s@.subrange(i as int, e)[j - i] == c);
                    assert(!is_safe_char(c));
                }
            }
        }
        return None;
    }
    proof {
        assert(s@.subrange(i as int, j + 1) =~= s@.subrange(i as int, j as int).push(c));
        assert(is_safe_char(c));
        assert forall|t: int| 0 <= t < j + 1 - i implies is_safe_char(
            #[trigger] s@.subrange(i as int, j + 1)[t],
        ) by {
            if t < j - i {
                assert(s@.subrange(i as int, j + 1)[t] == s@.subrange(i as int, j as int)[t]);
            }
        }
    }
    scan_text(s, n, i, j + 1)
}

/// Read a text field at position `i`: the content up to the closing quote,
/// which must arrive before any unsafe character does.
fn parse_str_field(s: &str, n: usize, i: usize) -> (r: Option<(String, usize)>)
    requires
        n == s@.len(),
        i <= n,
    ensures
        match r {
            Some((t, e)) => i <= e < n && s@[e as int] == '"' && t@ == s@.subrange(
                i as int,
                e as int,
            ) && safe_seq(t@),
            None => forall|e: int|
                i <= e < n && s@[e] == '"' ==> !safe_seq(s@.subrange(i as int, e)),
        },
{
    proof {
        assert(s@.subrange(i as int, i as int) =~= Seq::<char>::empty());
    }
    match scan_text(s, n, i, i) {
        None => None,
        Some(e) => {
            let t = s.substring_char(i, e).to_owned();
            Some((t, e))
        },
    }
}

/// A well-formed record stands encoded in `s` from `i` up to `e2`.
pub open spec fn enc_at(s: Seq<char>, i: int, e2: int, q: PersonView) -> bool {
    &&& 0 <= i < e2 <= s.len()
    &&& person_wf(q)
    &&& s.subrange(i, e2) == spec_enc_person(q)
}

/// Where each piece of a record encoded from `i` up to `e2` lies in the
/// surrounding text.
pub proof fn lemma_person_placement(s: Seq<char>, i: int, e2: int, q: PersonView)
    requires
        0 <= i <= e2 <= s.len(),
        s.subrange(i, e2) == spec_enc_person(q),
    ensures
        ({
            let d1 = spec_digits(q.id).len() as int;
            let nm = q.name.len() as int;
            let ct = q.category.len() as int;
            let d2 = spec_digits(q.age).len() as int;
            let cr = q.created_at.len() as int;
            &&& e2 == i + 54 + d1 + nm + ct + d2 + cr
            &&& s.subrange(i, i + 6) == lit_id()
            &&& s.subrange(i + 6, i + 6 + d1) == spec_digits(q.id)
            &&& s.subrange(i + 6 + d1, i + 15 + d1) == lit_name()
            &&& s.subrange(i + 15 + d1, i + 15 + d1 + nm) == q.name
            &&& s.subrange(i + 15 + d1 + nm, i + 29 + d1 + nm) == lit_category()
            &&& s.subrange(i + 29 + d1 + nm, i + 29 + d1 + nm + ct) == q.category
            &&& s.subrange(i + 29 + d1 + nm + ct, i + 37 + d1 + nm + ct) == lit_age()
            &&& s.subrange(i + 37 + d1 + nm + ct, i + 37 + d1 + nm + ct + d2) == spec_digits(
                q.age,
            )
            &&& s.subrange(i + 37 + d1 + nm + ct + d2, i + 52 + d1 + nm + ct + d2)
                == lit_created()
            &&& s.subrange(i + 52 + d1 + nm + ct + d2, i + 52 + d1 + nm + ct + d2 + cr)
                == q.created_at
            &&& s.subrange(i + 52 + d1 + nm + ct + d2 + cr, i + 54 + d1 + nm + ct + d2 + cr)
                == lit_close()
        }),
{
    lemma_enc_person_parts(q);
    let e = spec_enc_person(q);
    let d1 = spec_digits(q.id).len() as int;
    let nm = q.name.len() as int;
    let ct = q.category.len() as int;
    let d2 = spec_digits(q.age).len() as int;
    let cr = q.created_at.len() as int;
    assert(s.subrange(i, i + 6) =~= e.subrange(0, 6));
    assert(s.subrange(i + 6, i + 6 + d1) =~= e.subrange(6, 6 + d1));
    assert(s.subrange(i + 6 + d1, i + 15 + d1) =~= e.subrange(6 + d1, 15 + d1));
    assert(s.subrange(i + 15 + d1, i + 15 + d1 + nm) =~= e.subrange(15 + d1, 15 + d1 + nm));
    assert(s.subrange(i + 15 + d1 + nm, i + 29 + d1 + nm) =~= e.subrange(
        15 + d1 + nm,
        29 + d1 + nm,
    ));
    assert(s.subrange(i + 29 + d1 + nm, i + 29 + d1 + nm + ct) =~= e.subrange(
        29 + d1 + nm,
        29 + d1 + nm + ct,
    ));
    assert(s.subrange(i + 29 + d1 + nm + ct, i + 37 + d1 + nm + ct) =~= e.subrange(
        29 + d1 + nm + ct,
        37 + d1 + nm + ct,
    ));
    assert(s.subrange(i + 37 + d1 + nm + ct, i + 37 + d1 + nm + ct + d2) =~= e.subrange(
        37 + d1 + nm + ct,
        37 + d1 + nm + ct + d2,
    ));
    assert(s.subrange(i + 37 + d1 + nm + ct + d2, i + 52 + d1 + nm + ct + d2) =~= e.subrange(
        37 + d1 + nm + ct + d2,
        52 + d1 + nm + ct + d2,
    ));
    assert(s.subrange(i + 52 + d1 + nm + ct + d2, i + 52 + d1 + nm + ct + d2 + cr) =~= e.subrange(
        52 + d1 + nm + ct + d2,
        52 + d1 + nm + ct + d2 + cr,
    ));
    assert(s.subrange(i + 52 + d1 + nm + ct + d2 + cr, i + 54 + d1 + nm + ct + d2 + cr)
        =~= e.subrange(52 + d1 + nm + ct + d2 + cr, 54 + d1 + nm + ct + d2 + cr));
}

/// Read one encoded record at position `i`. Exactly the encodings of
/// well-formed records are read: on success the record stood there and no
/// other well-formed record does; on failure none does.
#[verifier::rlimit(60)]
fn parse_person(s: &str, n: usize, i: usize) -> (r: Option<(Person, usize)>)
    requires
        n == s@.len(),
        i <= n,
    ensures
        match r {
            Some((p, e)) => i < e <= n && s@.subrange(i as int, e as int) == spec_enc_person(p@)
                && person_wf(p@) && (forall|q: PersonView, e2: int|
                #[trigger] enc_at(s@, i as int, e2, q) ==> q == p@ && e2 == e),
            None => forall|q: PersonView, e2: int| !(#[trigger] enc_at(s@, i as int, e2, q)),
        },
{
    proof {
        reveal_strlit("{\"id\":");
        reveal_strlit(",\"name\":\"");
        reveal_strlit("\",\"category\":\"");
        reveal_strlit("\",\"age\":");
        reveal_strlit(",\"created_at\":\"");
        reveal_strlit("\"}");
        lemma_lits();
        assert("{\"id\":"@ =~= lit_id());
        assert(",\"name\":\""@ =~= lit_name());
        assert("\",\"category\":\""@ =~= lit_category());
        assert("\",\"age\":"@ =~= lit_age());
        assert(",\"created_at\":\""@ =~= lit_created());
        assert("\"}"@ =~= lit_close());
    }
    let j1 = match expect_lit(s, n, i, "{\"id\":") {
        Some(j) => j,
        None => {
            proof {
                assert forall|q: PersonView, e2: int| !(#[trigger] enc_at(
                    s@,
                    i as int,
                    e2,
                    q,
                )) by {
                    if enc_at(s@, i as int, e2, q) {
                        lemma_person_placement(s@, i as int, e2, q);
                    }
                }
            }
            return None;
        },
    };
    let (v1, j2) = match parse_digits(s, n, j1) {
        Some(pair) => pair,
        None => {
            proof {
                assert forall|q: PersonView, e2: int| !(#[trigger] enc_at(
                    s@,
                    i as int,
                    e2,
                    q,
                )) by {
                    if enc_at(s@, i as int, e2, q) {
                        lemma_person_placement(s@, i as int, e2, q);
                        lemma_spec_digits_props(q.id);
                        let d1 = spec_digits(q.id).len() as int;
                        assert(s@[i + 6 + d1] == lit_name()[0]);
                        assert((q.id as usize) as nat == q.id);
                        assert(s@.subrange(j1 as int, i + 6 + d1) == spec_digits(
                            (q.id as usize) as nat,
                        ));
                    }
                }
            }
            return None;
        },
    };
    proof {
        assert forall|q: PersonView, e2: int| #[trigger] enc_at(s@, i as int, e2, q) implies v1
            as nat == q.id && j2 == i + 6 + spec_digits(q.id).len() by {
            lemma_person_placement(s@, i as int, e2, q);
            lemma_spec_digits_props(q.id);
            let d1 = spec_digits(q.id).len() as int;
            assert(s@[i + 6 + d1] == lit_name()[0]);
            lemma_digit_run_unique(s@, j1 as int, v1 as nat, j2 as int, q.id, i + 6 + d1);
        }
    }
    let j3 = match expect_lit(s, n, j2, ",\"name\":\"") {
        Some(j) => j,
        None => {
            proof {
                assert forall|q: PersonView, e2: int| !(#[trigger] enc_at(
                    s@,
                    i as int,
                    e2,
                    q,
                )) by {
                    if enc_at(s@, i as int, e2, q) {
                        lemma_person_placement(s@, i as int, e2, q);
                    }
                }
            }
            return None;
        },
    };
    let (t1, j4) = match parse_str_field(s, n, j3) {
        Some(pair) => pair,
        None => {
            proof {
                assert forall|q: PersonView, e2: int| !(#[trigger] enc_at(
                    s@,
                    i as int,
                    e2,
                    q,
                )) by {
                    if enc_at(s@, i as int, e2, q) {
                        lemma_person_placement(s@, i as int, e2, q);
                        let d1 = spec_digits(q.id).len() as int;
                        let nm = q.name.len() as int;
                        assert(s@[i + 15 + d1 + nm] == lit_category()[0]);
                        assert(s@.subrange(j3 as int, i + 15 + d1 + nm) == q.name);
                    }
                }
            }
            return None;
        },
    };
    proof {
        assert forall|q: PersonView, e2: int| #[trigger] enc_at(s@, i as int, e2, q) implies t1@
            == q.name && j4 == i + 15 + spec_digits(q.id).len() + q.name.len() by {
            lemma_person_placement(s@, i as int, e2, q);
            let d1 = spec_digits(q.id).len() as int;
            let nm = q.name.len() as int;
            assert(s@[i + 15 + d1 + nm] == lit_category()[0]);
            assert(s@.subrange(j3 as int, i + 15 + d1 + nm) == q.name);
            lemma_quote_unique(s@, j3 as int, j4 as int, i + 15 + d1 + nm);
            assert(t1@ == s@.subrange(j3 as int, j4 as int));
        }
    }
    let j5 = match expect_lit(s, n, j4, "\",\"category\":\"") {
        Some(j) => j,
        None => {
            proof {
                assert forall|q: PersonView, e2: int| !(#[trigger] enc_at(
                    s@,
                    i as int,
                    e2,
                    q,
                )) by {
                    if enc_at(s@, i as int, e2, q) {
                        lemma_person_placement(s@, i as int, e2, q);
                    }
                }
            }
            return None;
        },
    };
    let (cat, j6) = match parse_str_field(s, n, j5) {
        Some(pair) => pair,
        None => {
            proof {
                assert forall|q: PersonView, e2: int| !(#[trigger] enc_at(
                    s@,
                    i as int,
                    e2,
                    q,
                )) by {
                    if enc_at(s@, i as int, e2, q) {
                        lemma_person_placement(s@, i as int, e2, q);
                        let d1 = spec_digits(q.id).len() as int;
                        let nm = q.name.len() as int;
                        let ct = q.category.len() as int;
                        assert(s@[i + 29 + d1 + nm + ct] == lit_age()[0]);
                        assert(s@.subrange(j5 as int, i + 29 + d1 + nm + ct) == q.category);
                    }
                }
            }
            return None;
        },
    };
    proof {
        assert forall|q: PersonView, e2: int| #[trigger] enc_at(s@, i as int, e2, q) implies cat@
            == q.category && j6 == i + 29 + spec_digits(q.id).len() + q.name.len()
            + q.category.len() by {
            lemma_person_placement(s@, i as int, e2, q);
            let d1 = spec_digits(q.id).len() as int;
            let nm = q.name.len() as int;
            let ct = q.category.len() as int;
            assert(s@[i + 29 + d1 + nm + ct] == lit_age()[0]);
            assert(s@.subrange(j5 as int, i + 29 + d1 + nm + ct) == q.category);
            lemma_quote_unique(s@, j5 as int, j6 as int, i + 29 + d1 + nm + ct);
            assert(cat@ == s@.subrange(j5 as int, j6 as int));
        }
    }
    let j7 = match expect_lit(s, n, j6, "\",\"age\":") {
        Some(j) => j,
        None => {
            proof {
                assert forall|q: PersonView, e2: int| !(#[trigger] enc_at(
                    s@,
                    i as int,
                    e2,
                    q,
                )) by {
                    if enc_at(s@, i as int, e2, q) {
                        lemma_person_placement(s@, i as int, e2, q);
                    }
                }
            }
            return None;
        },
    };
    let (v2, j8) = match parse_digits(s, n, j7) {
        Some(pair) => pair,
        None => {
            proof {
                assert forall|q: PersonView, e2: int| !(#[trigger] enc_at(
                    s@,
                    i as int,
                    e2,
                    q,
                )) by {
                    if enc_at(s@, i as int, e2, q) {
                        lemma_person_placement(s@, i as int, e2, q);
                        lemma_spec_digits_props(q.age);
                        let d1 = spec_digits(q.id).len() as int;
                        let nm = q.name.len() as int;
                        let ct = q.category.len() as int;
                        let d2 = spec_digits(q.age).len() as int;
                        assert(s@[i + 37 + d1 + nm + ct + d2] == lit_created()[0]);
                        assert((q.age as usize) as nat == q.age);
                        assert(s@.subrange(j7 as int, i + 37 + d1 + nm + ct + d2) == spec_digits(
                            (q.age as usize) as nat,
                        ));
                    }
                }
            }
            return None;
        },
    };
    proof {
        assert forall|q: PersonView, e2: int| #[trigger] enc_at(s@, i as int, e2, q) implies v2
            as nat == q.age && j8 == i + 37 + spec_digits(q.id).len() + q.name.len()
            + q.category.len() + spec_digits(q.age).len() by {
            lemma_person_placement(s@, i as int, e2, q);
            lemma_spec_digits_props(q.age);
            let d1 = spec_digits(q.id).len() as int;
            let nm = q.name.len() as int;
            let ct = q.category.len() as int;
            let d2 = spec_digits(q.age).len() as int;
            assert(s@[i + 37 + d1 + nm + ct + d2] == lit_created()[0]);
            lemma_digit_run_unique(
                s@,
                j7 as int,
                v2 as nat,
                j8 as int,
                q.age,
                i + 37 + d1 + nm + ct + d2,
            );
        }
    }
    let j9 = match expect_lit(s, n, j8, ",\"created_at\":\"") {
        Some(j) => j,
        None => {
            proof {
                assert forall|q: PersonView, e2: int| !(#[trigger] enc_at(
                    s@,
                    i as int,
                    e2,
                    q,
                )) by {
                    if enc_at(s@, i as int, e2, q) {
                        lemma_person_placement(s@, i as int, e2, q);
                    }
                }
            }
            return None;
        },
    };
    let (cre, j10) = match parse_str_field(s, n, j9) {
        Some(pair) => pair,
        None => {
            proof {
                assert forall|q: PersonView, e2: int| !(#[trigger] enc_at(
                    s@,
                    i as int,
                    e2,
                    q,
                )) by {
                    if enc_at(s@, i as int, e2, q) {
                        lemma_person_placement(s@, i as int, e2, q);
                        let d1 = spec_digits(q.id).len() as int;
                        let nm = q.name.len() as int;
                        let ct = q.category.len() as int;
                        let d2 = spec_digits(q.age).len() as int;
                        let cr = q.created_at.len() as int;
                        assert(s@[i + 52 + d1 + nm + ct + d2 + cr] == lit_close()[0]);
                        assert(s@.subrange(j9 as int, i + 52 + d1 + nm + ct + d2 + cr)
                            == q.created_at);
                    }
                }
            }
            return None;
        },
    };
    proof {
        assert forall|q: PersonView, e2: int| #[trigger] enc_at(s@, i as int, e2, q) implies cre@
            == q.created_at && j10 == i + 52 + spec_digits(q.id).len() + q.name.len()
            + q.category.len() + spec_digits(q.age).len() + q.created_at.len() by {
            lemma_person_placement(s@, i as int, e2, q);
            let d1 = spec_digits(q.id).len() as int;
            let nm = q.name.len() as int;
            let ct = q.category.len() as int;
            let d2 = spec_digits(q.age).len() as int;
            let cr = q.created_at.len() as int;
            assert(s@[i + 52 + d1 + nm + ct + d2 + cr] == lit_close()[0]);
            assert(s@.subrange(j9 as int, i + 52 + d1 + nm + ct + d2 + cr) == q.created_at);
            lemma_quote_unique(s@, j9 as int, j10 as int, i + 52 + d1 + nm + ct + d2 + cr);
            assert(cre@ == s@.subrange(j9 as int, j10 as int));
        }
    }
    let j11 = match expect_lit(s, n, j10, "\"}") {
        Some(j) => j,
        None => {
            proof {
                assert forall|q: PersonView, e2: int| !(#[trigger] enc_at(
                    s@,
                    i as int,
                    e2,
                    q,
                )) by {
                    if enc_at(s@, i as int, e2, q) {
                        lemma_person_placement(s@, i as int, e2, q);
                        let d1 = spec_digits(q.id).len() as int;
                        let nm = q.name.len() as int;
                        let ct = q.category.len() as int;
                        let d2 = spec_digits(q.age).len() as int;
                        let cr = q.created_at.len() as int;
                        assert(s@.subrange(i + 52 + d1 + nm + ct + d2 + cr, e2) == lit_close());
                    }
                }
            }
            return None;
        },
    };
    let p = Person { id: v1, name: t1, category: cat, age: v2, created_at: cre };
    proof {
        assert(s@.subrange(i as int, j11 as int) =~= lit_id() + spec_digits(v1 as nat)
            + lit_name() + p.name@ + lit_category() + p.category@ + lit_age() + spec_digits(
            v2 as nat,
        ) + lit_created() + p.created_at@ + lit_close());
        assert(s@.subrange(i as int, j11 as int) == spec_enc_person(p@));
        assert forall|q: PersonView, e2: int| #[trigger] enc_at(s@, i as int, e2, q) implies q
            == p@ && e2 == j11 by {
            lemma_person_placement(s@, i as int, e2, q);
            assert(q == p@);
        }
    }
    Some((p, j11))
}

/// When the items of a non-empty collection, closed by `]`, stand at `i`,
/// the first record's encoding leads, and what follows it is a comma and
/// the remaining items (or the closing bracket when it was the last).
proof fn lemma_items_head(s: Seq<char>, i: int, cs: Seq<PersonView>)
    requires
        0 <= i <= s.len(),
        people_wf(cs),
        cs.len() >= 1,
        s.subrange(i, s.len() as int) == spec_enc_items(cs) + seq![']'],
    ensures
        ({
            let e0 = i + spec_enc_person(cs[0]).len();
            &&& enc_at(s, i, e0, cs[0])
            &&& e0 < s.len()
            &&& (cs.len() == 1 ==> s[e0] == ']' && e0 + 1 == s.len())
            &&& (cs.len() >= 2 ==> s[e0] == ',' && s.subrange(e0 + 1, s.len() as int)
                == spec_enc_items(cs.drop_first()) + seq![']'] && people_wf(cs.drop_first()))
        }),
{
    lemma_enc_person_parts(cs[0]);
    let enc = spec_enc_person(cs[0]);
    let e0 = i + enc.len();
    let whole = spec_enc_items(cs) + seq![']'];
    assert(person_wf(cs[0]));
    assert(s.len() - i == whole.len());
    assert forall|t: int| 0 <= t < whole.len() implies s[i + t] == whole[t] by {
        assert(s.subrange(i, s.len() as int)[t] == s[i + t]);
    }
    if cs.len() == 1 {
        assert(spec_enc_items(cs) == enc);
        assert forall|t: int| 0 <= t < enc.len() implies s.subrange(i, e0)[t] == enc[t] by {
            assert(s[i + t] == whole[t]);
        }
        assert(s.subrange(i, e0) =~= enc);
        assert(s[e0] == whole[e0 - i]);
    } else {
        assert(spec_enc_items(cs) == enc + seq![','] + spec_enc_items(cs.drop_first()));
        assert forall|t: int| 0 <= t < enc.len() implies s.subrange(i, e0)[t] == enc[t] by {
            assert(s[i + t] == whole[t]);
        }
        assert(s.subrange(i, e0) =~= enc);
        assert(s[e0] == whole[e0 - i]);
        assert forall|t: int| 0 <= t < s.len() - e0 - 1 implies s.subrange(e0 + 1, s.len() as int)[t]
            == (spec_enc_items(cs.drop_first()) + seq![']'])[t] by {
            assert(s[e0 + 1 + t] == whole[e0 + 1 + t - i]);
        }
        assert(s.subrange(e0 + 1, s.len() as int) =~= spec_enc_items(cs.drop_first())
            + seq![']']);
        assert forall|k: int| 0 <= k < cs.drop_first().len() implies person_wf(
            #[trigger] cs.drop_first()[k],
        ) by {
            assert(cs.drop_first()[k] == cs[k + 1]);
        }
    }
}

/// Read the records of a non-empty collection from `i` up to the closing
/// bracket at the very end of the text. Exactly the item writings of
/// well-formed non-empty collections are read.
#[verifier::rlimit(60)]
fn parse_items(s: &str, n: usize, i: usize) -> (r: Option<Vec<Person>>)
    requires
        n == s@.len(),
        1 <= i <= n,
    ensures
        match r {
            Some(c) => people_wf(c.deep_view()) && c.deep_view().len() >= 1 && s@.subrange(
                i as int,
                n as int,
            ) == spec_enc_items(c.deep_view()) + seq![']'],
            None => forall|cs: Seq<PersonView>|
                people_wf(cs) && cs.len() >= 1 ==> s@.subrange(i as int, n as int)
                    != #[trigger] spec_enc_items(cs) + seq![']'],
        },
    decreases n - i,
{
    match parse_person(s, n, i) {
        None => {
            proof {
                assert forall|cs: Seq<PersonView>|
                    people_wf(cs) && cs.len() >= 1 implies s@.subrange(i as int, n as int)
                    != #[trigger] spec_enc_items(cs) + seq![']'] by {
                    if s@.subrange(i as int, n as int) == spec_enc_items(cs) + seq![']'] {
                        lemma_items_head(s@, i as int, cs);
                    }
                }
            }
            None
        },
        Some((p, j)) => {
            if j == n {
                proof {
                    assert forall|cs: Seq<PersonView>|
                        people_wf(cs) && cs.len() >= 1 implies s@.subrange(i as int, n as int)
                        != #[trigger] spec_enc_items(cs) + seq![']'] by {
                        if s@.subrange(i as int, n as int) == spec_enc_items(cs) + seq![']'] {
                            lemma_items_head(s@, i as int, cs);
                            assert(enc_at(s@, i as int, i + spec_enc_person(cs[0]).len(), cs[0]));
                        }
                    }
                }
                return None;
            }
            let c = s.get_char(j);
            if c == ',' {
                match parse_items(s, n, j + 1) {
                    None => {
                        proof {
                            assert forall|cs: Seq<PersonView>|
                                people_wf(cs) && cs.len() >= 1 implies s@.subrange(
                                i as int,
                                n as int,
                            ) != #[trigger] spec_enc_items(cs) + seq![']'] by {
                                if s@.subrange(i as int, n as int) == spec_enc_items(cs)
                                    + seq![']'] {
                                    lemma_items_head(s@, i as int, cs);
                                    assert(enc_at(
                                        s@,
                                        i as int,
                                        i + spec_enc_person(cs[0]).len(),
                                        cs[0],
                                    ));
                                    assert(cs.len() >= 2);
                                    assert(spec_enc_items(cs.drop_first())
                                        == spec_enc_items(cs.drop_first()));
                                }
                            }
                        }
                        None
                    },
                    Some(rest) => {
                        let mut out = rest;
                        out.insert(0, p);
                        proof {
                            let dv = out.deep_view();
                            assert(out@ =~= seq![p] + rest@);
                            assert(dv.len() == rest.deep_view().len() + 1);
                            assert(dv[0] == p@);
                            assert(dv.drop_first() =~= rest.deep_view());
                            assert forall|k: int| 0 <= k < dv.len() implies person_wf(
                                #[trigger] dv[k],
                            ) by {
                                if k > 0 {
                                    assert(dv[k] == dv.drop_first()[k - 1]);
                                }
                            }
                            assert(spec_enc_items(dv) == spec_enc_person(p@) + seq![',']
                                + spec_enc_items(rest.deep_view()));
                            assert(s@.subrange(i as int, n as int) =~= s@.subrange(
                                i as int,
                                j as int,
                            ) + seq![s@[j as int]] + s@.subrange(j + 1, n as int));
                            assert(s@.subrange(i as int, n as int) =~= spec_enc_items(dv)
                                + seq![']']);
                        }
                        Some(out)
                    },
                }
            } else if c == ']' {
                if j + 1 == n {
                    let mut out = Vec::new();
                    out.push(p);
                    proof {
                        let dv = out.deep_view();
                        assert(dv =~= seq![p@]);
                        assert(people_wf(dv));
                        assert(spec_enc_items(dv) == spec_enc_person(p@));
                        assert(s@.subrange(i as int, n as int) =~= s@.subrange(
                            i as int,
                            j as int,
                        ) + seq![s@[j as int]]);
                        assert(s@.subrange(i as int, n as int) =~= spec_enc_items(dv)
                            + seq![']']);
                    }
                    Some(out)
                } else {
                    proof {
                        assert forall|cs: Seq<PersonView>|
                            people_wf(cs) && cs.len() >= 1 implies s@.subrange(i as int, n as int)
                            != #[trigger] spec_enc_items(cs) + seq![']'] by {
                            if s@.subrange(i as int, n as int) == spec_enc_items(cs) + seq![']'] {
                                lemma_items_head(s@, i as int, cs);
                                assert(enc_at(
                                    s@,
                                    i as int,
                                    i + spec_enc_person(cs[0]).len(),
                                    cs[0],
                                ));
                            }
                        }
                    }
                    None
                }
            } else {
                proof {
                    assert forall|cs: Seq<PersonView>|
                        people_wf(cs) && cs.len() >= 1 implies s@.subrange(i as int, n as int)
                        != #[trigger] spec_enc_items(cs) + seq![']'] by {
                        if s@.subrange(i as int, n as int) == spec_enc_items(cs) + seq![']'] {
                            lemma_items_head(s@, i as int, cs);
                            assert(enc_at(s@, i as int, i + spec_enc_person(cs[0]).len(), cs[0]));
                        }
                    }
                }
                None
            }
        },
    }
}

/// At one place in a text, only one well-formed record can stand encoded,
/// and its encoding ends at only one place.
pub proof fn lemma_enc_at_unique(s: Seq<char>, i: int, e1: int, q1: PersonView, e2: int, q2: PersonView)
    requires
        enc_at(s, i, e1, q1),
        enc_at(s, i, e2, q2),
    ensures
        q1 == q2,
        e1 == e2,
{
    lemma_lits();
    lemma_person_placement(s, i, e1, q1);
    lemma_person_placement(s, i, e2, q2);
    lemma_spec_digits_props(q1.id);
    lemma_spec_digits_props(q2.id);
    let da1 = spec_digits(q1.id).len() as int;
    let da2 = spec_digits(q2.id).len() as int;
    assert(s[i + 6 + da1] == lit_name()[0]);
    assert(s[i + 6 + da2] == lit_name()[0]);
    lemma_digit_run_unique(s, i + 6, q1.id, i + 6 + da1, q2.id, i + 6 + da2);
    assert(q1.id == q2.id);
    let d1 = da1;
    let nm1 = q1.name.len() as int;
    let nm2 = q2.name.len() as int;
    assert(s[i + 15 + d1 + nm1] == lit_category()[0]);
    assert(s[i + 15 + d1 + nm2] == lit_category()[0]);
    lemma_quote_unique(s, i + 15 + d1, i + 15 + d1 + nm1, i + 15 + d1 + nm2);
    assert(q1.name == s.subrange(i + 15 + d1, i + 15 + d1 + nm1));
    assert(q1.name == q2.name);
    let nm = nm1;
    let ct1 = q1.category.len() as int;
    let ct2 = q2.category.len() as int;
    assert(s[i + 29 + d1 + nm + ct1] == lit_age()[0]);
    assert(s[i + 29 + d1 + nm + ct2] == lit_age()[0]);
    lemma_quote_unique(s, i + 29 + d1 + nm, i + 29 + d1 + nm + ct1, i + 29 + d1 + nm + ct2);
    assert(q1.category == q2.category);
    let ct = ct1;
    lemma_spec_digits_props(q1.age);
    lemma_spec_digits_props(q2.age);
    let db1 = spec_digits(q1.age).len() as int;
    let db2 = spec_digits(q2.age).len() as int;
    assert(s[i + 37 + d1 + nm + ct + db1] == lit_created()[0]);
    assert(s[i + 37 + d1 + nm + ct + db2] == lit_created()[0]);
    lemma_digit_run_unique(
        s,
        i + 37 + d1 + nm + ct,
        q1.age,
        i + 37 + d1 + nm + ct + db1,
        q2.age,
        i + 37 + d1 + nm + ct + db2,
    );
    assert(q1.age == q2.age);
    let d2 = db1;
    let cr1 = q1.created_at.len() as int;
    let cr2 = q2.created_at.len() as int;
    assert(s[i + 52 + d1 + nm + ct + d2 + cr1] == lit_close()[0]);
    assert(s[i + 52 + d1 + nm + ct + d2 + cr2] == lit_close()[0]);
    lemma_quote_unique(
        s,
        i + 52 + d1 + nm + ct + d2,
        i + 52 + d1 + nm + ct + d2 + cr1,
        i + 52 + d1 + nm + ct + d2 + cr2,
    );
    assert(q1.created_at == q2.created_at);
}

/// Two well-formed collections with the same encoding are the same
/// collection: the persisted text determines what it holds. Together with
/// the contracts of [`encode`] (which writes `spec_encode`) and [`decode`]
/// (which accepts exactly the texts `spec_encode` can produce), this is the
/// round trip: persisting a collection and loading it back yields an equal
/// sequence of records, field for field.
pub proof fn lemma_encode_injective(cs1: Seq<PersonView>, cs2: Seq<PersonView>)
    requires
        people_wf(cs1),
        people_wf(cs2),
        spec_encode(cs1) == spec_encode(cs2),
    ensures
        cs1 == cs2,
    decreases cs1.len(),
{
    lemma_lits();
    let s = spec_encode(cs1);
    if cs1.len() == 0 && cs2.len() == 0 {
        assert(cs1 =~= cs2);
    } else if cs1.len() == 0 || cs2.len() == 0 {
        let full = if cs1.len() == 0 { cs2 } else { cs1 };
        assert(spec_encode(Seq::<PersonView>::empty()).len() == 2);
        lemma_enc_person_parts(full[0]);
        assert(spec_enc_items(full)[0] == spec_enc_person(full[0])[0]);
        assert(spec_encode(full)[1] == spec_enc_items(full)[0]);
        assert(spec_encode(full)[1] == '{');
        assert(spec_encode(Seq::<PersonView>::empty())[1] == ']');
        assert(spec_encode(full).len() > 2);
    } else {
        assert(s.subrange(1, s.len() as int) =~= spec_enc_items(cs1) + seq![']']);
        assert(s.subrange(1, s.len() as int) =~= spec_enc_items(cs2) + seq![']']);
        lemma_items_head(s, 1, cs1);
        lemma_items_head(s, 1, cs2);
        let e1 = 1 + spec_enc_person(cs1[0]).len() as int;
        let e2 = 1 + spec_enc_person(cs2[0]).len() as int;
        lemma_enc_at_unique(s, 1, e1, cs1[0], e2, cs2[0]);
        assert(cs1[0] == cs2[0]);
        if cs1.len() == 1 || cs2.len() == 1 {
            if cs1.len() != cs2.len() {
                assert(s[e1] == ']' || s[e1] == ',');
                assert(false);
            }
            assert(cs1 =~= cs2);
        } else {
            let t1 = cs1.drop_first();
            let t2 = cs2.drop_first();
            assert(spec_encode(t1) =~= spec_encode(t2)) by {
                assert(s.subrange(e1 + 1, s.len() as int) == spec_enc_items(t1) + seq![']']);
                assert(s.subrange(e2 + 1, s.len() as int) == spec_enc_items(t2) + seq![']']);
                assert forall|t: int| 0 <= t < spec_enc_items(t1).len() implies spec_enc_items(
                    t1,
                )[t] == spec_enc_items(t2)[t] by {
                    assert(spec_enc_items(t1)[t] == (spec_enc_items(t1) + seq![']'])[t]);
                    assert(spec_enc_items(t2)[t] == (spec_enc_items(t2) + seq![']'])[t]);
                }
                assert(spec_enc_items(t1) =~= spec_enc_items(t2));
            }
            lemma_encode_injective(t1, t2);
            assert forall|k: int| 0 <= k < cs1.len() implies cs1[k] == cs2[k] by {
                if k > 0 {
                    assert(cs1[k] == t1[k - 1]);
                    assert(cs2[k] == t2[k - 1]);
                }
            }
            assert(cs1 =~= cs2);
        }
    }
}

/// Read a whole persisted text. Exactly the encodings of well-formed
/// collections are accepted, and the collection that was written comes
/// back: nothing else decodes, and nothing decodes to anything else.
pub fn decode(s: &str) -> (r: Option<Vec<Person>>)
    ensures
        match r {
            Some(c) => people_wf(c.deep_view()) && s@ == spec_encode(c.deep_view()),
            None => forall|cs: Seq<PersonView>|
                people_wf(cs) ==> s@ != #[trigger] spec_encode(cs),
        },
{
    proof {
        reveal_strlit("{\"id\":");
        lemma_lits();
    }
    let n = s.unicode_len();
    if n == 0 {
        proof {
            assert forall|cs: Seq<PersonView>| people_wf(cs) implies s@ != #[trigger] spec_encode(
                cs,
            ) by {
                assert(spec_encode(cs).len() >= 2);
            }
        }
        return None;
    }
    if s.get_char(0) != '[' {
        proof {
            assert forall|cs: Seq<PersonView>| people_wf(cs) implies s@ != #[trigger] spec_encode(
                cs,
            ) by {
                assert(spec_encode(cs)[0] == '[');
            }
        }
        return None;
    }
    if n >= 2 && s.get_char(1) == ']' {
        if n == 2 {
            let out = Vec::new();
            proof {
                let dv = out.deep_view();
                assert(dv =~= Seq::<PersonView>::empty());
                assert(spec_enc_items(dv) =~= Seq::<char>::empty());
                assert(s@ =~= spec_encode(dv));
            }
            return Some(out);
        } else {
            proof {
                assert forall|cs: Seq<PersonView>|
                    people_wf(cs) implies s@ != #[trigger] spec_encode(cs) by {
                    if s@ == spec_encode(cs) {
                        if cs.len() == 0 {
                            assert(spec_encode(cs).len() == 2);
                        } else {
                            lemma_enc_person_parts(cs[0]);
                            assert(spec_enc_items(cs)[0] == spec_enc_person(cs[0])[0]);
                            assert(spec_enc_person(cs[0])[0] == lit_id()[0]);
                            assert(spec_encode(cs)[1] == spec_enc_items(cs)[0]);
                        }
                    }
                }
            }
            return None;
        }
    }
    match parse_items(s, n, 1) {
        Some(c) => {
            proof {
                let dv = c.deep_view();
                assert(s@ =~= seq!['['] + (spec_enc_items(dv) + seq![']']));
                assert(s@ =~= spec_encode(dv));
            }
            Some(c)
        },
        None => {
            proof {
                assert forall|cs: Seq<PersonView>|
                    people_wf(cs) implies s@ != #[trigger] spec_encode(cs) by {
                    if s@ == spec_encode(cs) {
                        if cs.len() == 0 {
                            assert(spec_enc_items(cs) =~= Seq::<char>::empty());
                            assert(spec_encode(cs).len() == 2);
                            assert(s@[1] == spec_encode(cs)[1]);
                            assert(spec_encode(cs)[1] == ']');
                        } else {
                            assert(s@.subrange(1, n as int) =~= spec_enc_items(cs) + seq![']']);
                        }
                    }
                }
            }
            None
        },
    }
}

} // verus!
