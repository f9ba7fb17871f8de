//! The humans who may authorize, and the scopes each of them may grant.
//!
//! Identity is `iss` plus `sub`. An email address is display text only,
//! because most providers let a human change it.
use vstd::prelude::*;

use crate::errors::{invalid, MCSError, Result};
use crate::order::TextSet;
use crate::text;
use crate::text::{same, trim};
use crate::tools::ToolCategory;

verus! {

/// The one scope of administration. It grants access to the admin API only;
/// no tool carries it.
pub const ADMIN_SCOPE: &'static str = "admin";

#[derive(Debug)]
pub struct PrincipalEntry {
    pub name: String,
    pub iss: String,
    pub sub: String,
    pub label: Option<String>,
    pub scopes: Vec<String>,
}

/// What a [`PrincipalEntry`] holds.
#[verifier::ext_equal]
pub struct EntryData {
    pub name: Seq<char>,
    pub iss: Seq<char>,
    pub sub: Seq<char>,
    pub label: Option<Seq<char>>,
    pub scopes: Seq<Seq<char>>,
}

impl View for PrincipalEntry {
    type V = EntryData;

    open spec fn view(&self) -> EntryData {
        EntryData {
            name: self.name@,
            iss: self.iss@,
            sub: self.sub@,
            label: text::opt_text(self.label),
            scopes: text::texts(self.scopes@),
        }
    }
}

impl Clone for PrincipalEntry {
    fn clone(&self) -> (r: Self)
        ensures
            r@ == self@,
    {
        PrincipalEntry {
            name: self.name.clone(),
            iss: self.iss.clone(),
            sub: self.sub.clone(),
            label: self.label.clone(),
            scopes: text::copy_texts(&self.scopes),
        }
    }
}

/// What the entries hold.
pub open spec fn entries_data(v: Seq<PrincipalEntry>) -> Seq<EntryData> {
    v.map_values(|e: PrincipalEntry| e@)
}

/// The one spelling of a scope; nothing for a text that names none. The scope
/// of administration has no other spelling.
pub open spec fn canonical(slug: Seq<char>) -> Option<Seq<char>> {
    if slug == ADMIN_SCOPE@ {
        Some(ADMIN_SCOPE@)
    } else {
        match ToolCategory::named(slug) {
            Some(c) => Some(c.spelled()),
            None => None,
        }
    }
}

fn canonical_scope(slug: &str) -> (r: Option<String>)
    ensures
        match r {
            Some(s) => canonical(slug@) == Some(s@),
            None => canonical(slug@) is None,
        },
{
    if same(slug, ADMIN_SCOPE) {
        return Some(ADMIN_SCOPE.to_owned());
    }
    match ToolCategory::parse(slug) {
        Ok(c) => Some(c.slug().to_owned()),
        Err(_) => None,
    }
}

/// The canonical scopes of a list.
pub open spec fn canonical_set(scopes: Seq<Seq<char>>) -> Set<Seq<char>> {
    Set::new(
        |s: Seq<char>| exists|i: int| 0 <= i < scopes.len() && canonical(#[trigger] scopes[i]) == Some(s),
    )
}

impl PrincipalEntry {
    /// The identity that an upstream token is matched against.
    pub fn key(&self) -> (r: (&str, &str))
        ensures
            r.0@ == self.iss@,
            r.1@ == self.sub@,
    {
        (self.iss.as_str(), self.sub.as_str())
    }

    /// The scopes in their one spelling. What names no scope is left out.
    pub fn scope_set(&self) -> (r: TextSet)
        ensures
            r@ == canonical_set(text::texts(self.scopes@)),
    {
        let ghost all = text::texts(self.scopes@);
        let mut set: TextSet = TextSet::new();
        let mut i: usize = 0;
        assert(set@ =~= canonical_set(all.take(0)));
        while i < self.scopes.len()
            invariant
                i <= self.scopes@.len(),
                all == text::texts(self.scopes@),
                set@ == canonical_set(all.take(i as int)),
            decreases self.scopes@.len() - i,
        {
            let ghost before = all.take(i as int);
            let ghost after = all.take(i + 1);
            assert(after[i as int] == self.scopes@[i as int]@);
            let c: Option<String> = canonical_scope(&self.scopes[i]);
            if let Some(s) = &c {
                set.insert(s);
            }
            assert(set@ =~= canonical_set(after)) by {
                assert forall|s: Seq<char>| set@.contains(s) implies canonical_set(after).contains(s) by {
                    if canonical_set(before).contains(s) {
                        let k = choose|k: int|
                            0 <= k < before.len() && canonical(#[trigger] before[k]) == Some(s);
                        assert(after[k] == before[k]);
                    } else {
                        assert(canonical(after[i as int]) == Some(s));
                    }
                }
                assert forall|s: Seq<char>| canonical_set(after).contains(s) implies set@.contains(s) by {
                    let k = choose|k: int|
                        0 <= k < after.len() && canonical(#[trigger] after[k]) == Some(s);
                    if k < i {
                        assert(before[k] == after[k]);
                        assert(canonical_set(before).contains(s));
                    }
                }
            }
            i += 1;
        }
        assert(all.take(all.len() as int) =~= all);
        set
    }
}

/// Whether the text names a scope: a tool category or administration.
pub fn is_known_scope(slug: &str) -> (r: bool)
    ensures
        r == (canonical(slug@) is Some),
{
    canonical_scope(slug).is_some()
}

/// The scopes of a list in their one spelling and in the list's order, blank
/// ones left out; the first text that names none, where there is one.
pub open spec fn canonical_list(raw: Seq<Seq<char>>) -> std::result::Result<
    Seq<Seq<char>>,
    Seq<char>,
>
    decreases raw.len(),
{
    if raw.len() == 0 {
        Ok(Seq::empty())
    } else {
        match canonical_list(raw.drop_last()) {
            Err(slug) => Err(slug),
            Ok(before) => {
                let slug = text::trimmed(raw.last());
                if slug.len() == 0 {
                    Ok(before)
                } else {
                    match canonical(slug) {
                        Some(s) => Ok(before.push(s)),
                        None => Err(slug),
                    }
                }
            },
        }
    }
}

/// The scopes of a list in their one spelling and in the list's order. The
/// caller decides whether an empty result is allowed.
pub fn canonical_scopes(raw: &Vec<String>) -> (r: Result<Vec<String>>)
    ensures
        match canonical_list(text::texts(raw@)) {
            Ok(list) => r matches Ok(v) && text::texts(v@) == list,
            Err(slug) => r matches Err(MCSError::InvalidParams(m)) && m@ == "unknown scope '"@ + slug
                + "'"@,
        },
{
    let ghost all = text::texts(raw@);
    let mut out: Vec<String> = Vec::new();
    let mut fault: Option<String> = None;
    let mut i: usize = 0;
    assert(all.take(0) =~= Seq::<Seq<char>>::empty());
    assert(text::texts(out@) =~= Seq::<Seq<char>>::empty());
    while i < raw.len()
        invariant
            i <= raw@.len(),
            all == text::texts(raw@),
            match fault {
                Some(s) => canonical_list(all.take(i as int)) == Err::<Seq<Seq<char>>, Seq<char>>(s@),
                None => canonical_list(all.take(i as int)) == Ok::<Seq<Seq<char>>, Seq<char>>(
                    text::texts(out@),
                ),
            },
        decreases raw@.len() - i,
    {
        assert(all.take(i + 1).drop_last() =~= all.take(i as int));
        assert(all.take(i + 1).last() == raw@[i as int]@);
        if fault.is_none() {
            let slug: String = trim(&raw[i]);
            if !slug.as_str().is_empty() {
                match canonical_scope(&slug) {
                    Some(s) => {
                        let ghost done = text::texts(out@);
                        let ghost t = s@;
                        out.push(s);
                        assert(text::texts(out@) =~= done.push(t));
                    },
                    None => {
                        fault = Some(slug);
                    },
                }
            }
        }
        i += 1;
    }
    assert(all.take(all.len() as int) =~= all);
    match fault {
        Some(slug) => Err(invalid(&"unknown scope '".to_owned().concat(&slug).concat("'"))),
        None => Ok(out),
    }
}

/// A list that was made canonical is left alone when it is made so again.
pub proof fn law_canonical_scopes_are_settled(raw: Seq<Seq<char>>)
    requires
        canonical_list(raw) is Ok,
    ensures
        canonical_list(canonical_list(raw)->Ok_0) == canonical_list(raw),
    decreases raw.len(),
{
    if raw.len() > 0 {
        law_canonical_scopes_are_settled(raw.drop_last());
        let before = canonical_list(raw.drop_last())->Ok_0;
        let slug = text::trimmed(raw.last());
        if slug.len() > 0 {
            let s = canonical(slug)->0;
            lemma_canonical_is_settled(slug);
            assert(before.push(s).drop_last() =~= before);
        }
    }
}

proof fn lemma_canonical_is_settled(slug: Seq<char>)
    requires
        canonical(slug) is Some,
    ensures
        text::trimmed(canonical(slug)->0) == canonical(slug)->0,
        canonical(slug)->0.len() > 0,
        canonical(canonical(slug)->0) == canonical(slug),
{
    let s = canonical(slug)->0;
    reveal_strlit("admin");
    reveal_strlit("graph-read");
    reveal_strlit("graph-write");
    reveal_strlit("vectors");
    reveal_strlit("code");
    assert(ADMIN_SCOPE@ == "admin"@);
    if slug != ADMIN_SCOPE@ {
        let c = ToolCategory::named(slug)->0;
        c.law_slug_names_its_category();
    }
    assert(!text::white_space(s[0]) && !text::white_space(s.last()));
    assert(text::trimmed(s) =~= s);
}

// ---------------------------------------------------------------------------
// The principals file
// ---------------------------------------------------------------------------

/// What came of reading the principals file.
pub enum PrincipalsFile {
    /// It could not be read.
    Unreadable(String),
    /// It holds something else.
    Invalid(String),
    Entries(Vec<PrincipalEntry>),
}

/// An entry with its identity trimmed.
pub open spec fn trimmed_entry(e: EntryData) -> EntryData {
    EntryData {
        name: text::trimmed(e.name),
        iss: text::trimmed(e.iss),
        sub: text::trimmed(e.sub),
        ..e
    }
}

/// An entry of the list has the identity.
pub open spec fn identity_in(list: Seq<EntryData>, iss: Seq<char>, sub: Seq<char>) -> bool {
    exists|i: int| 0 <= i < list.len() && (#[trigger] list[i]).iss == iss && list[i].sub == sub
}

/// The entry as it is stored, after the entries that were accepted before it;
/// or why it is refused.
pub open spec fn accepted_entry(before: Seq<EntryData>, e: EntryData) -> std::result::Result<
    EntryData,
    Seq<char>,
> {
    let t = trimmed_entry(e);
    if t.name.len() == 0 || t.iss.len() == 0 || t.sub.len() == 0 {
        Err("every principal needs a non-empty name, iss and sub"@)
    } else {
        match canonical_list(e.scopes) {
            Err(slug) => Err("unknown scope '"@ + slug + "'"@),
            Ok(scopes) => if scopes.len() == 0 {
                Err("principal '"@ + t.name + "' has no scopes"@)
            } else if identity_in(before, t.iss, t.sub) {
                Err("duplicate principal identity "@ + t.iss + " "@ + t.sub)
            } else {
                Ok(EntryData { scopes, ..t })
            },
        }
    }
}

/// The entries as they are stored, or why the first that is refused is.
pub open spec fn accepted_entries(list: Seq<EntryData>) -> std::result::Result<
    Seq<EntryData>,
    Seq<char>,
>
    decreases list.len(),
{
    if list.len() == 0 {
        Ok(Seq::empty())
    } else {
        match accepted_entries(list.drop_last()) {
            Err(why) => Err(why),
            Ok(before) => match accepted_entry(before, list.last()) {
                Ok(e) => Ok(before.push(e)),
                Err(why) => Err(why),
            },
        }
    }
}

fn holds_identity(list: &Vec<PrincipalEntry>, iss: &str, sub: &str) -> (r: bool)
    ensures
        r == identity_in(entries_data(list@), iss@, sub@),
{
    let mut i: usize = 0;
    while i < list.len()
        invariant
            i <= list@.len(),
            forall|j: int|
                0 <= j < i ==> !((#[trigger] entries_data(list@)[j]).iss == iss@ && entries_data(
                    list@,
                )[j].sub == sub@),
        decreases list@.len() - i,
    {
        if same(&list[i].iss, iss) && same(&list[i].sub, sub) {
            assert(entries_data(list@)[i as int].iss == iss@);
            return true;
        }
        i += 1;
    }
    false
}

fn accept_entry(before: &Vec<PrincipalEntry>, e: &PrincipalEntry) -> (r: Result<PrincipalEntry>)
    ensures
        match accepted_entry(entries_data(before@), e@) {
            Ok(d) => r matches Ok(x) && x@ == d,
            Err(why) => r matches Err(MCSError::InvalidParams(m)) && m@ == why,
        },
{
    let name: String = trim(&e.name);
    let iss: String = trim(&e.iss);
    let sub: String = trim(&e.sub);
    if name.as_str().is_empty() || iss.as_str().is_empty() || sub.as_str().is_empty() {
        return Err(invalid("every principal needs a non-empty name, iss and sub"));
    }
    let scopes: Vec<String> = match canonical_scopes(&e.scopes) {
        Ok(v) => v,
        Err(x) => {
            return Err(x);
        },
    };
    if scopes.len() == 0 {
        return Err(invalid(&"principal '".to_owned().concat(&name).concat("' has no scopes")));
    }
    if holds_identity(before, &iss, &sub) {
        return Err(
            invalid(
                &"duplicate principal identity ".to_owned().concat(&iss).concat(" ").concat(&sub),
            ),
        );
    }
    let out: PrincipalEntry = PrincipalEntry { name, iss, sub, label: e.label.clone(), scopes };
    assert(out@ =~= (EntryData {
        scopes: text::texts(out.scopes@),
        ..trimmed_entry(e@)
    }));
    Ok(out)
}

/// Takes the principals file as it was read from the path. It fails closed: a
/// file that is unreadable, empty or invalid is refused. The entries come back
/// with their identities trimmed and their scopes in their one spelling, so
/// that every later comparison is plain equality.
pub fn load(path: &str, file: PrincipalsFile) -> (r: Result<Vec<PrincipalEntry>>)
    ensures
        match file {
            PrincipalsFile::Unreadable(e) => r matches Err(MCSError::InvalidParams(m)) && m@
                == "failed to read --principals-file '"@ + path@ + "': "@ + e@,
            PrincipalsFile::Invalid(e) => r matches Err(MCSError::InvalidParams(m)) && m@
                == "--principals-file '"@ + path@ + "' is not a valid principals file: "@ + e@,
            PrincipalsFile::Entries(list) => if list@.len() == 0 {
                r matches Err(MCSError::InvalidParams(m)) && m@ == "--principals-file '"@ + path@
                    + "' is empty; refusing to start with nobody allowed"@
            } else {
                match accepted_entries(entries_data(list@)) {
                    Ok(d) => r matches Ok(v) && entries_data(v@) == d,
                    Err(why) => r matches Err(MCSError::InvalidParams(m)) && m@ == why,
                }
            },
        },
{
    let list: Vec<PrincipalEntry> = match file {
        PrincipalsFile::Unreadable(e) => {
            return Err(
                invalid(
                    &"failed to read --principals-file '".to_owned().concat(path).concat(
                        "': ",
                    ).concat(&e),
                ),
            );
        },
        PrincipalsFile::Invalid(e) => {
            return Err(
                invalid(
                    &"--principals-file '".to_owned().concat(path).concat(
                        "' is not a valid principals file: ",
                    ).concat(&e),
                ),
            );
        },
        PrincipalsFile::Entries(list) => list,
    };
    if list.len() == 0 {
        return Err(
            invalid(
                &"--principals-file '".to_owned().concat(path).concat(
                    "' is empty; refusing to start with nobody allowed",
                ),
            ),
        );
    }
    let ghost all = entries_data(list@);
    let mut out: Vec<PrincipalEntry> = Vec::new();
    let mut fault: Option<MCSError> = None;
    let mut i: usize = 0;
    assert(all.take(0) =~= Seq::<EntryData>::empty());
    assert(entries_data(out@) =~= Seq::<EntryData>::empty());
    while i < list.len()
        invariant
            i <= list@.len(),
            all == entries_data(list@),
            match fault {
                Some(e) => e matches MCSError::InvalidParams(m) && accepted_entries(all.take(i as int))
                    == Err::<Seq<EntryData>, Seq<char>>(m@),
                None => accepted_entries(all.take(i as int)) == Ok::<Seq<EntryData>, Seq<char>>(
                    entries_data(out@),
                ),
            },
        decreases list@.len() - i,
    {
        assert(all.take(i + 1).drop_last() =~= all.take(i as int));
        assert(all.take(i + 1).last() == list@[i as int]@);
        if fault.is_none() {
            match accept_entry(&out, &list[i]) {
                Ok(e) => {
                    let ghost done = entries_data(out@);
                    let ghost d = e@;
                    out.push(e);
                    assert(entries_data(out@) =~= done.push(d));
                },
                Err(e) => {
                    fault = Some(e);
                },
            }
        }
        i += 1;
    }
    assert(all.take(all.len() as int) =~= all);
    match fault {
        Some(e) => Err(e),
        None => Ok(out),
    }
}

/// The entries of an accepted file have names, scopes that are known, and
/// identities that are all different.
pub proof fn law_accepted_identities_are_distinct(list: Seq<EntryData>)
    ensures
        accepted_entries(list) matches Ok(v) ==> v.len() == list.len() && (forall|i: int, j: int|
            0 <= i < j < v.len() ==> !((#[trigger] v[i]).iss == (#[trigger] v[j]).iss && v[i].sub
                == v[j].sub)) && (forall|i: int|
            0 <= i < v.len() ==> (#[trigger] v[i]).name.len() > 0 && v[i].scopes.len() > 0
                && canonical_list(v[i].scopes) == Ok::<Seq<Seq<char>>, Seq<char>>(v[i].scopes)),
    decreases list.len(),
{
    if list.len() > 0 {
        law_accepted_identities_are_distinct(list.drop_last());
        if let Ok(before) = accepted_entries(list.drop_last()) {
            if let Ok(e) = accepted_entry(before, list.last()) {
                law_canonical_scopes_are_settled(list.last().scopes);
                let v = before.push(e);
                assert forall|i: int, j: int| 0 <= i < j < v.len() implies !((#[trigger] v[i]).iss
                    == (#[trigger] v[j]).iss && v[i].sub == v[j].sub) by {
                    if j == before.len() {
                        assert(before[i] == v[i]);
                    }
                }
            }
        }
    }
}

/// A scope is known under its one spelling, which is that of administration or of
/// a category.
pub proof fn law_scopes_are_known_by_their_spelling(slug: Seq<char>, c: ToolCategory)
    ensures
        canonical("admin"@) == Some("admin"@),
        canonical(c.spelled()) == Some(c.spelled()),
        slug != "admin"@ && ToolCategory::named(slug) == Some(c) ==> canonical(slug) == Some(c.spelled()),
        canonical(slug) is Some ==> canonical(slug) == Some("admin"@) || exists|d: ToolCategory|
            canonical(slug) == Some(#[trigger] d.spelled()),
        canonical(slug) == Some("admin"@) ==> slug == "admin"@,
{
    reveal_strlit("admin");
    reveal_strlit("graph-read");
    reveal_strlit("graph-write");
    reveal_strlit("vectors");
    reveal_strlit("code");
    assert("admin"@.len() == 5 && "graph-read"@.len() == 10 && "graph-write"@.len() == 11 && "vectors"@.len()
        == 7 && "code"@.len() == 4);
    c.law_slug_names_its_category();
    if canonical(slug) is Some && slug != "admin"@ {
        let d = ToolCategory::named(slug)->0;
        assert(canonical(slug) == Some(d.spelled()));
        assert(d.spelled().len() != 5);
    }
}

/// Every scope of a list is held, wherever in the list it stands, and no other.
pub proof fn law_every_listed_scope_is_held(a: Seq<Seq<char>>, b: Seq<Seq<char>>, k: int)
    ensures
        0 <= k < a.len() ==> (canonical(a[k]) matches Some(s) ==> canonical_set(a).contains(s)),
        canonical_set(a + b) == canonical_set(a).union(canonical_set(b)),
        canonical_set(Seq::empty()) == Set::<Seq<char>>::empty(),
{
    let (x, y) = (canonical_set(a + b), canonical_set(a).union(canonical_set(b)));
    assert forall|s: Seq<char>| x.contains(s) <==> y.contains(s) by {
        if x.contains(s) {
            let i = choose|i: int| 0 <= i < (a + b).len() && canonical(#[trigger] (a + b)[i]) == Some(s);
            if i < a.len() {
                assert((a + b)[i] == a[i]);
            } else {
                assert((a + b)[i] == b[i - a.len()]);
            }
        }
        if canonical_set(a).contains(s) {
            let i = choose|i: int| 0 <= i < a.len() && canonical(#[trigger] a[i]) == Some(s);
            assert((a + b)[i] == a[i]);
        }
        if canonical_set(b).contains(s) {
            let i = choose|i: int| 0 <= i < b.len() && canonical(#[trigger] b[i]) == Some(s);
            assert((a + b)[i + a.len()] == b[i]);
        }
    }
    assert(x =~= y);
    assert(canonical_set(Seq::empty()) =~= Set::<Seq<char>>::empty());
}

/// A list of scopes is read from the first to the last: what two lists hold, one
/// behind the other, is what the one holds and then what the other does, and one
/// text that names no scope spoils the list.
pub proof fn law_scopes_are_read_in_order(a: Seq<Seq<char>>, b: Seq<Seq<char>>, one: Seq<char>)
    ensures
        canonical_list(a + b) is Ok <==> canonical_list(a) is Ok && canonical_list(b) is Ok,
        canonical_list(a + b) matches Ok(all) ==> all == canonical_list(a)->Ok_0 + canonical_list(b)->Ok_0,
        text::trimmed(one).len() == 0 ==> canonical_list(seq![one]) == Ok::<Seq<Seq<char>>, Seq<char>>(
            Seq::empty(),
        ),
        text::trimmed(one).len() > 0 && canonical(text::trimmed(one)) is Some ==> canonical_list(seq![one]) == Ok::<
            Seq<Seq<char>>,
            Seq<char>,
        >(seq![canonical(text::trimmed(one))->0]),
        text::trimmed(one).len() > 0 && canonical(text::trimmed(one)) is None ==> canonical_list(seq![one]) == Err::<
            Seq<Seq<char>>,
            Seq<char>,
        >(text::trimmed(one)),
    decreases b.len(),
{
    let single = seq![one];
    assert(single.drop_last() =~= Seq::<Seq<char>>::empty());
    assert(single.last() == one);
    assert(canonical_list(single.drop_last()) == Ok::<Seq<Seq<char>>, Seq<char>>(Seq::empty()));
    if text::trimmed(one).len() > 0 && canonical(text::trimmed(one)) is Some {
        let s = canonical(text::trimmed(one))->0;
        assert(Seq::<Seq<char>>::empty().push(s) =~= seq![s]);
    }
    if b.len() == 0 {
        assert(a + b =~= a);
        if let Ok(x) = canonical_list(a) {
            assert(x + Seq::<Seq<char>>::empty() =~= x);
        }
    } else {
        law_scopes_are_read_in_order(a, b.drop_last(), one);
        assert((a + b).drop_last() =~= a + b.drop_last());
        assert((a + b).last() == b.last());
        if let Ok(all) = canonical_list(a + b) {
            let x = canonical_list(a)->Ok_0;
            let y = canonical_list(b.drop_last())->Ok_0;
            let slug = text::trimmed(b.last());
            if slug.len() > 0 {
                assert((x + y).push(canonical(slug)->0) =~= x + y.push(canonical(slug)->0));
            }
        }
    }
}

/// Every entry of an accepted file is there, in its own place, as it was written
/// up to the white space around it and the spelling of its scopes; and a file of
/// whole entries with different identities is accepted.
pub proof fn law_every_entry_is_loaded(list: Seq<EntryData>)
    ensures
        accepted_entries(list) matches Ok(v) ==> v.len() == list.len() && forall|i: int|
            0 <= i < list.len() ==> {
                &&& (#[trigger] v[i]).name == text::trimmed(list[i].name)
                &&& v[i].iss == text::trimmed(list[i].iss)
                &&& v[i].sub == text::trimmed(list[i].sub)
                &&& v[i].label == list[i].label
                &&& canonical_list(list[i].scopes) == Ok::<Seq<Seq<char>>, Seq<char>>(v[i].scopes)
            },
        accepted_entries(list) is Ok <==> {
            &&& forall|i: int|
                0 <= i < list.len() ==> text::trimmed((#[trigger] list[i]).name).len() > 0 && text::trimmed(
                    list[i].iss,
                ).len() > 0 && text::trimmed(list[i].sub).len() > 0 && canonical_list(list[i].scopes) is Ok
                    && canonical_list(list[i].scopes)->Ok_0.len() > 0
            &&& forall|i: int, j: int|
                0 <= i < j < list.len() ==> !(text::trimmed((#[trigger] list[i]).iss) == text::trimmed(
                    (#[trigger] list[j]).iss,
                ) && text::trimmed(list[i].sub) == text::trimmed(list[j].sub))
        },
    decreases list.len(),
{
    if list.len() > 0 {
        let front = list.drop_last();
        let last = list.len() - 1;
        law_every_entry_is_loaded(front);
        law_accepted_identities_are_distinct(list);
        assert(list[last] == list.last());
        assert forall|i: int| 0 <= i < last implies front[i] == #[trigger] list[i] by {}
        if let Ok(v) = accepted_entries(list) {
            let before = accepted_entries(front)->Ok_0;
            assert forall|i: int| 0 <= i < list.len() implies {
                &&& (#[trigger] v[i]).name == text::trimmed(list[i].name)
                &&& v[i].iss == text::trimmed(list[i].iss)
                &&& v[i].sub == text::trimmed(list[i].sub)
                &&& v[i].label == list[i].label
                &&& canonical_list(list[i].scopes) == Ok::<Seq<Seq<char>>, Seq<char>>(v[i].scopes)
            } by {
                if i < last {
                    assert(v[i] == before[i]);
                    assert(front[i] == list[i]);
                }
            }
            assert forall|i: int| 0 <= i < list.len() implies text::trimmed((#[trigger] list[i]).name).len() > 0
                && text::trimmed(list[i].iss).len() > 0 && text::trimmed(list[i].sub).len() > 0 && canonical_list(
                list[i].scopes,
            ) is Ok && canonical_list(list[i].scopes)->Ok_0.len() > 0 by {
                if i < last {
                    assert(front[i] == list[i]);
                }
            }
            assert forall|i: int, j: int| 0 <= i < j < list.len() implies !(text::trimmed((#[trigger] list[i]).iss)
                == text::trimmed((#[trigger] list[j]).iss) && text::trimmed(list[i].sub) == text::trimmed(
                list[j].sub,
            )) by {
                assert(v[i].iss == text::trimmed(list[i].iss));
                assert(v[j].iss == text::trimmed(list[j].iss));
            }
        }
        if (forall|i: int|
            0 <= i < list.len() ==> text::trimmed((#[trigger] list[i]).name).len() > 0 && text::trimmed(
                list[i].iss,
            ).len() > 0 && text::trimmed(list[i].sub).len() > 0 && canonical_list(list[i].scopes) is Ok
                && canonical_list(list[i].scopes)->Ok_0.len() > 0) && (forall|i: int, j: int|
            0 <= i < j < list.len() ==> !(text::trimmed((#[trigger] list[i]).iss) == text::trimmed(
                (#[trigger] list[j]).iss,
            ) && text::trimmed(list[i].sub) == text::trimmed(list[j].sub))) {
            assert forall|i: int| 0 <= i < front.len() implies text::trimmed((#[trigger] front[i]).name).len() > 0
                && text::trimmed(front[i].iss).len() > 0 && text::trimmed(front[i].sub).len() > 0
                && canonical_list(front[i].scopes) is Ok && canonical_list(front[i].scopes)->Ok_0.len() > 0 by {
                assert(front[i] == list[i]);
            }
            assert forall|i: int, j: int| 0 <= i < j < front.len() implies !(text::trimmed(
                (#[trigger] front[i]).iss,
            ) == text::trimmed((#[trigger] front[j]).iss) && text::trimmed(front[i].sub) == text::trimmed(
                front[j].sub,
            )) by {
                assert(front[i] == list[i] && front[j] == list[j]);
            }
            let before = accepted_entries(front)->Ok_0;
            let t = trimmed_entry(list.last());
            assert(text::trimmed(list[last].name).len() > 0);
            if identity_in(before, t.iss, t.sub) {
                let i = choose|i: int| 0 <= i < before.len() && (#[trigger] before[i]).iss == t.iss && before[i].sub
                    == t.sub;
                assert(before[i].iss == text::trimmed(front[i].iss));
                assert(front[i] == list[i]);
                assert(text::trimmed(list[i].iss) == text::trimmed(list[last].iss));
            }
        }
    }
}

/// Nothing of an entry goes unseen, and a list shows
/// every item in its place.
pub proof fn law_nothing_goes_unseen(a: PrincipalEntry, x: Seq<PrincipalEntry>, i: int)
    ensures
        a@.name == a.name@,
        a@.iss == a.iss@,
        a@.sub == a.sub@,
        a@.label == text::opt_text(a.label),
        a@.scopes == text::texts(a.scopes@),
        entries_data(x).len() == x.len(),
        0 <= i < x.len() ==> entries_data(x)[i] == x[i]@,
{
}

} // verus!
