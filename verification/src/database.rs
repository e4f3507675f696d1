//! The record store: the single owner of the persisted medium. Every read
//! is a full decode of the medium's text and every mutation is a full
//! rewrite, so the medium and the collection a caller saw are always
//! consistent; callers that share one store through one owner get their
//! mutations serialized.

use vstd::prelude::*;

use crate::codec::{decode, encode, lemma_encode_injective, spec_encode};
use crate::cursor::Cursor;
use crate::person::{generated_bounds, is_safe_char, people_wf, person_wf, safe_seq, Person, PersonView};

verus! {

/// How reading the store can fail: the medium cannot be read at all, or its
/// content does not decode into a collection.
#[derive(Clone, Copy, Debug, PartialEq, Eq, Structural)]
pub enum Error {
    StoreUnavailable,
    StoreCorrupt,
}

/// The persisted collection's medium, held as the full text that stands (or
/// is about to stand) on it. One `Store` value is the single owner of that
/// text; all mutations go through it.
pub struct Store {
    content: String,
}

impl Store {
    /// The text on the medium.
    pub closed spec fn text(&self) -> Seq<char> {
        self.content@
    }

    /// A store over the given medium text, as read from the outside.
    pub fn new(content: String) -> (r: Store)
        ensures
            r.text() == content@,
    {
        Store { content }
    }

    /// A store over an empty collection.
    pub fn empty() -> (r: Store)
        ensures
            r.text() == spec_encode(Seq::<PersonView>::empty()),
    {
        let people: Vec<Person> = Vec::new();
        let content = encode(&people);
        proof {
            assert(people.deep_view() =~= Seq::<PersonView>::empty());
        }
        Store { content }
    }

    /// The text to write back to the outside medium.
    pub fn medium(&self) -> (r: &str)
        ensures
            r@ == self.text(),
    {
        self.content.as_str()
    }

    fn set(&mut self, content: String)
        ensures
            final(self).text() == content@,
    {
        self.content = content;
    }
}

/// An alphanumeric ASCII character: a letter or a digit.
pub open spec fn is_alphanumeric_ascii(c: char) -> bool {
    ||| '0' as u32 <= c as u32 <= '9' as u32
    ||| 'A' as u32 <= c as u32 <= 'Z' as u32
    ||| 'a' as u32 <= c as u32 <= 'z' as u32
}

/// Relies on rand's `thread_rng` and `Rng::gen_range` over `0..bound`: a
/// draw below the bound. `gen_range` panics only on an empty range, which
/// the requirement excludes.
#[verifier::external_body]
fn rand_below(bound: usize) -> (r: usize)
    requires
        1 <= bound,
    ensures
        r < bound,
{
    rand::Rng::gen_range(&mut rand::thread_rng(), 0..bound)
}

/// Relies on rand's `Rng::sample_iter` with the `Alphanumeric`
/// distribution: every sampled byte is an ASCII letter or digit, and
/// taking `len` of them yields exactly `len` characters.
#[verifier::external_body]
fn rand_alphanumeric(len: usize) -> (r: String)
    ensures
        r@.len() == len as nat,
        forall|i: int| 0 <= i < r@.len() ==> is_alphanumeric_ascii(#[trigger] r@[i]),
{
    rand::Rng::sample_iter(rand::thread_rng(), rand::distributions::Alphanumeric)
        .take(len)
        .map(char::from)
        .collect()
}

/// Relies on chrono's `Utc::now` and `DateTime::to_rfc3339`: the current
/// time written as a non-empty RFC 3339 text, whose characters are ASCII
/// digits, letters and the punctuation `-:.+` — never a quote, a backslash
/// or a control character.
#[verifier::external_body]
fn now_rfc3339() -> (r: String)
    ensures
        safe_seq(r@),
        r@.len() >= 1,
{
    chrono::Utc::now().to_rfc3339()
}

/// Make one random record: the id below 9 999 999, the category drawn
/// uniformly from the two fixed ones, the age from [1, 14], a ten-character
/// alphanumeric name, and the current time as creation stamp.
pub fn generate_random_person() -> (p: Person)
    ensures
        person_wf(p@),
        generated_bounds(p@),
{
    let id = rand_below(9999999);
    let category = if rand_below(2) == 0 {
        "cats".to_owned()
    } else {
        "dogs".to_owned()
    };
    let age = 1 + rand_below(14);
    let name = rand_alphanumeric(10);
    let created_at = now_rfc3339();
    proof {
        reveal_strlit("cats");
        reveal_strlit("dogs");
        assert(safe_seq("cats"@));
        assert(safe_seq("dogs"@));
        assert forall|i: int| 0 <= i < name@.len() implies is_safe_char(#[trigger] name@[i]) by {
            assert(is_alphanumeric_ascii(name@[i]));
        }
    }
    Person { id, name, category, age, created_at }
}

/// Read the full persisted collection. It comes back exactly when the
/// medium's text is the encoding of a well-formed collection — the one it
/// then returns; otherwise the store is corrupt.
pub fn read_db(store: &Store) -> (r: Result<Vec<Person>, Error>)
    ensures
        match r {
            Ok(c) => people_wf(c.deep_view()) && store.text() == spec_encode(c.deep_view()),
            Err(e) => e == Error::StoreCorrupt && (forall|cs: Seq<PersonView>|
                people_wf(cs) ==> store.text() != #[trigger] spec_encode(cs)),
        },
{
    match decode(store.medium()) {
        Some(c) => Ok(c),
        None => Err(Error::StoreCorrupt),
    }
}

/// Append one randomly generated record: load the collection, push the new
/// record, persist the result, and return it. The returned collection is
/// the old one with exactly the new record at the end; nothing else moves
/// or changes. On a corrupt medium nothing changes and the error says so.
pub fn add_random_person_to_db(store: &mut Store) -> (r: Result<Vec<Person>, Error>)
    ensures
        match r {
            Ok(c) => {
                let dv = c.deep_view();
                &&& dv.len() >= 1
                &&& people_wf(dv)
                &&& generated_bounds(dv.last())
                &&& old(store).text() == spec_encode(dv.drop_last())
                &&& final(store).text() == spec_encode(dv)
                &&& forall|cs: Seq<PersonView>|
                    people_wf(cs) && old(store).text() == #[trigger] spec_encode(cs) ==> dv
                        == cs.push(dv.last())
            },
            Err(e) => e == Error::StoreCorrupt && final(store).text() == old(store).text() && (
            forall|cs: Seq<PersonView>|
                people_wf(cs) ==> old(store).text() != #[trigger] spec_encode(cs)),
        },
{
    let mut c = match decode(store.medium()) {
        Some(c) => c,
        None => {
            return Err(Error::StoreCorrupt);
        },
    };
    let ghost dv0 = c.deep_view();
    let p = generate_random_person();
    c.push(p);
    let content = encode(&c);
    store.set(content);
    proof {
        let dv = c.deep_view();
        assert(dv =~= dv0.push(p@));
        assert(dv.last() == p@);
        assert(dv.drop_last() =~= dv0);
        assert forall|k: int| 0 <= k < dv.len() implies person_wf(#[trigger] dv[k]) by {
            if k < dv0.len() {
                assert(dv[k] == dv0[k]);
            }
        }
        assert forall|cs: Seq<PersonView>|
            people_wf(cs) && old(store).text() == #[trigger] spec_encode(cs) implies dv == cs.push(
            dv.last(),
        ) by {
            lemma_encode_injective(cs, dv0);
        }
    }
    Ok(c)
}

/// Remove the record the cursor stands on, if any: load the collection,
/// drop the element at the selected index, persist the result, and move the
/// cursor one step down (staying at 0 when it was there, clearing when the
/// collection became empty). With nothing selected, with an empty
/// collection, or with a stale index past the end, nothing changes and no
/// error is raised; only a corrupt medium is an error, and then nothing
/// changes either.
pub fn remove_person_at_index(store: &mut Store, cursor: &mut Cursor) -> (r: Result<(), Error>)
    ensures
        r is Err <==> (old(cursor).selected is Some && (forall|cs: Seq<PersonView>|
            people_wf(cs) ==> old(store).text() != #[trigger] spec_encode(cs))),
        r is Err ==> r == Err::<(), Error>(Error::StoreCorrupt)
            && final(store).text() == old(store).text()
            && final(cursor).selected == old(cursor).selected,
        old(cursor).selected is None ==> final(store).text() == old(store).text()
            && final(cursor).selected == old(cursor).selected,
        forall|cs: Seq<PersonView>|
            (people_wf(cs) && old(store).text() == #[trigger] spec_encode(cs)
                && old(cursor).selected is Some) ==> ({
                let sel = old(cursor).selected->0;
                if sel < cs.len() {
                    &&& final(store).text() == spec_encode(cs.remove(sel as int))
                    &&& final(cursor).selected == (if cs.len() == 1 {
                        None
                    } else {
                        Some((if sel == 0 { 0usize } else { (sel - 1) as usize }))
                    })
                } else {
                    &&& final(store).text() == old(store).text()
                    &&& final(cursor).selected == old(cursor).selected
                }
            }),
{
    let sel = match cursor.selected {
        None => {
            return Ok(());
        },
        Some(sel) => sel,
    };
    let mut c = match decode(store.medium()) {
        Some(c) => c,
        None => {
            return Err(Error::StoreCorrupt);
        },
    };
    let ghost dv0 = c.deep_view();
    if c.len() == 0 || sel >= c.len() {
        proof {
            assert forall|cs: Seq<PersonView>|
                people_wf(cs) && old(store).text() == #[trigger] spec_encode(cs) implies cs
                == dv0 by {
                lemma_encode_injective(cs, dv0);
            }
        }
        return Ok(());
    }
    c.remove(sel);
    let content = encode(&c);
    store.set(content);
    let new_len = c.len();
    if new_len == 0 {
        cursor.select(None);
    } else if sel == 0 {
        cursor.select(Some(0));
    } else {
        cursor.select(Some(sel - 1));
    }
    proof {
        let dv = c.deep_view();
        assert(dv =~= dv0.remove(sel as int));
        assert forall|cs: Seq<PersonView>|
            people_wf(cs) && old(store).text() == #[trigger] spec_encode(cs) implies cs == dv0 by {
            lemma_encode_injective(cs, dv0);
        }
    }
    Ok(())
}

} // verus!
