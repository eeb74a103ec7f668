//! The phone directory: an ordered collection of entries, each holding a
//! name, a number in the shape `DDD-DDD-DDDD`, and a visibility flag.
//!
//! The directory maintains three invariants: names are unique, at most one
//! entry per number is listed, and every stored number is well-formed.

use vstd::prelude::*;

verus! {

/// Ghost-level picture of one directory entry: its name and number as
/// character sequences, and whether the entry is listed.
pub ghost struct EntryModel {
    pub name: Seq<char>,
    pub number: Seq<char>,
    pub listed: bool,
}

/// An ASCII digit character.
pub open spec fn is_digit(c: char) -> bool {
    48 <= c as u32 && c as u32 <= 57
}

/// A well-formed phone number: twelve characters, dashes at positions 3 and
/// 7, digits everywhere else (the shape `DDD-DDD-DDDD`).
pub open spec fn valid_number(s: Seq<char>) -> bool {
    &&& s.len() == 12
    &&& s[3] == '-'
    &&& s[7] == '-'
    &&& forall|i: int| 0 <= i < 12 && i != 3 && i != 7 ==> is_digit(#[trigger] s[i])
}

/// Some entry already carries this name.
pub open spec fn contains_name(s: Seq<EntryModel>, name: Seq<char>) -> bool {
    exists|i: int| 0 <= i < s.len() && (#[trigger] s[i]).name == name
}

/// Some listed entry already carries this number.
pub open spec fn contains_listed_number(s: Seq<EntryModel>, number: Seq<char>) -> bool {
    exists|i: int| 0 <= i < s.len() && (#[trigger] s[i]).number == number && s[i].listed
}

/// Exactly when an insertion succeeds: the name is new, the number is
/// well-formed, and a listed entry does not repeat a listed number.
pub open spec fn can_add(
    s: Seq<EntryModel>,
    name: Seq<char>,
    number: Seq<char>,
    listed: bool,
) -> bool {
    &&& !contains_name(s, name)
    &&& valid_number(number)
    &&& (listed ==> !contains_listed_number(s, number))
}

/// The directory invariants: unique names, at most one listed entry per
/// number, and every number well-formed.
pub open spec fn wf_entries(s: Seq<EntryModel>) -> bool {
    &&& forall|i: int, j: int|
        0 <= i < j < s.len() ==> (#[trigger] s[i]).name != (#[trigger] s[j]).name
    &&& forall|i: int, j: int|
        0 <= i < j < s.len() && (#[trigger] s[i]).listed && (#[trigger] s[j]).listed
            ==> s[i].number != s[j].number
    &&& forall|i: int| 0 <= i < s.len() ==> valid_number((#[trigger] s[i]).number)
}

/// What a lookup by name returns: the number of the first entry that carries
/// the name and is listed.
pub open spec fn lookup_model(s: Seq<EntryModel>, name: Seq<char>) -> Option<Seq<char>>
    decreases s.len(),
{
    if s.len() == 0 {
        None
    } else if s.first().name == name && s.first().listed {
        Some(s.first().number)
    } else {
        lookup_model(s.drop_first(), name)
    }
}

/// What a lookup by number returns: the name of the first entry that carries
/// the number and is listed.
pub open spec fn lookup_by_num_model(s: Seq<EntryModel>, number: Seq<char>) -> Option<Seq<char>>
    decreases s.len(),
{
    if s.len() == 0 {
        None
    } else if s.first().number == number && s.first().listed {
        Some(s.first().name)
    } else {
        lookup_by_num_model(s.drop_first(), number)
    }
}

/// `p` is a prefix of `s`.
pub open spec fn is_prefix(p: Seq<char>, s: Seq<char>) -> bool {
    p.len() <= s.len() && s.subrange(0, p.len() as int) == p
}

/// The names of all entries whose number starts with `p`, in entry order.
pub open spec fn names_with_prefix(s: Seq<EntryModel>, p: Seq<char>) -> Seq<Seq<char>>
    decreases s.len(),
{
    if s.len() == 0 {
        Seq::empty()
    } else {
        let rest = names_with_prefix(s.drop_last(), p);
        if is_prefix(p, s.last().number) {
            rest.push(s.last().name)
        } else {
            rest
        }
    }
}

/// A single phone book entry.
#[derive(Debug, Clone)]
pub struct PhoneEntry {
    pub name: String,
    pub number: String,
    pub is_listed: bool,
}

impl PhoneEntry {
    /// The ghost picture of this entry.
    pub open spec fn model(self) -> EntryModel {
        EntryModel { name: self.name@, number: self.number@, listed: self.is_listed }
    }
}

/// PhoneBook holds name/number pairs and whether each is listed.
#[derive(Debug)]
pub struct PhoneBook {
    entries: Vec<PhoneEntry>,
}

impl View for PhoneBook {
    type V = Seq<EntryModel>;

    closed spec fn view(&self) -> Seq<EntryModel> {
        self.entries@.map_values(|e: PhoneEntry| e.model())
    }
}

impl PhoneBook {
    /// The directory invariants hold of the stored entries.
    pub open spec fn wf(self) -> bool {
        wf_entries(self@)
    }

    /// Constructor: create an empty PhoneBook.
    pub fn new() -> (book: Self)
        ensures
            book@ == Seq::<EntryModel>::empty(),
            book.wf(),
    {
        let book = PhoneBook { entries: Vec::new() };
        proof {
            assert(book@ =~= Seq::<EntryModel>::empty());
        }
        book
    }

    /// Whether `number` has the shape `DDD-DDD-DDDD`.
    pub fn is_valid_number(number: &str) -> (r: bool)
        ensures
            r == valid_number(number@),
    {
        let len = number.unicode_len();
        if len != 12 {
            return false;
        }
        let mut i: usize = 0;
        while i < 12
            invariant
                0 <= i <= 12,
                number@.len() == 12,
                forall|k: int|
                    0 <= k < i ==> if k == 3 || k == 7 {
                        number@[k] == '-'
                    } else {
                        is_digit(#[trigger] number@[k])
                    },
            decreases 12 - i,
        {
            let c = number.get_char(i);
            if i == 3 || i == 7 {
                if c != '-' {
                    return false;
                }
            } else {
                let u = c as u32;
                if !(48 <= u && u <= 57) {
                    return false;
                }
            }
            i += 1;
        }
        true
    }

    /// Attempts to add a new entry.
    ///
    /// The insertion succeeds exactly when the name is new, the number is
    /// well-formed, and (for a listed entry) no listed entry already carries
    /// the number. On success the entry is appended; on failure the
    /// directory is unchanged.
    pub fn add(&mut self, name: String, number: String, is_listed: bool) -> (r: bool)
        requires
            old(self).wf(),
        ensures
            final(self).wf(),
            r == can_add(old(self)@, name@, number@, is_listed),
            r ==> final(self)@ == old(self)@.push(
                EntryModel { name: name@, number: number@, listed: is_listed },
            ),
            !r ==> final(self)@ == old(self)@,
    {
        let n = self.entries.len();
        let mut i: usize = 0;
        while i < n
            invariant
                *self == *old(self),
                old(self).wf(),
                0 <= i <= n,
                n == self.entries@.len(),
                forall|k: int| 0 <= k < i ==> (#[trigger] self@[k]).name != name@,
            decreases n - i,
        {
            if self.entries[i].name == name {
                proof {
                    assert(self@[i as int] == self.entries@[i as int].model());
                    assert(self@[i as int].name == name@);
                    assert(contains_name(self@, name@));
                }
                return false;
            }
            i += 1;
        }
        proof {
            assert(!contains_name(self@, name@));
        }
        if !Self::is_valid_number(number.as_str()) {
            return false;
        }
        if is_listed {
            let mut j: usize = 0;
            while j < n
                invariant
                    *self == *old(self),
                    old(self).wf(),
                    is_listed,
                    0 <= j <= n,
                    n == self.entries@.len(),
                    forall|k: int|
                        0 <= k < j ==> !((#[trigger] self@[k]).number == number@
                            && self@[k].listed),
                decreases n - j,
            {
                let e = &self.entries[j];
                if e.is_listed && e.number == number {
                    proof {
                        assert(self@[j as int] == self.entries@[j as int].model());
                        assert(self@[j as int].number == number@ && self@[j as int].listed);
                        assert(contains_listed_number(self@, number@));
                    }
                    return false;
                }
                j += 1;
            }
            proof {
                assert(!contains_listed_number(self@, number@));
            }
        }
        let ghost pre = self@;
        let ghost m = EntryModel { name: name@, number: number@, listed: is_listed };
        self.entries.push(PhoneEntry { name, number, is_listed });
        proof {
            assert(self@ =~= pre.push(m));
            assert forall|i: int, j: int|
                0 <= i < j < self@.len() implies (#[trigger] self@[i]).name
                != (#[trigger] self@[j]).name by {
                if j == pre.len() {
                    assert(!contains_name(pre, m.name));
                }
            }
            assert forall|i: int, j: int|
                0 <= i < j < self@.len() && (#[trigger] self@[i]).listed
                && (#[trigger] self@[j]).listed implies self@[i].number
                != self@[j].number by {
                if j == pre.len() {
                    assert(!contains_listed_number(pre, m.number));
                }
            }
        }
        true
    }

    /// Looks up `name` and returns the number ONLY if the entry is listed.
    ///
    /// Otherwise returns None.
    pub fn lookup(&self, name: &str) -> (r: Option<String>)
        ensures
            r.deep_view() == lookup_model(self@, name@),
    {
        let key: String = name.to_owned();
        let n = self.entries.len();
        let mut i: usize = 0;
        proof {
            assert(self@.skip(0) =~= self@);
        }
        while i < n
            invariant
                key@ == name@,
                0 <= i <= n,
                n == self.entries@.len(),
                lookup_model(self@, name@) == lookup_model(self@.skip(i as int), name@),
            decreases n - i,
        {
            let e = &self.entries[i];
            proof {
                assert(self@.skip(i as int).len() > 0);
                assert(self@.skip(i as int).first() == self@[i as int]);
                assert(self@.skip(i as int).drop_first() =~= self@.skip(i as int + 1));
                assert(self@[i as int] == self.entries@[i as int].model());
            }
            if e.is_listed && e.name == key {
                proof {
                    assert(lookup_model(self@, name@) == Some(self@[i as int].number));
                }
                return Some(e.number.clone());
            }
            i += 1;
        }
        proof {
            assert(self@.skip(n as int) =~= Seq::<EntryModel>::empty());
        }
        None
    }

    /// Looks up `num` and returns the associated name ONLY if the entry is
    /// listed.
    ///
    /// Otherwise returns None.
    pub fn lookup_by_num(&self, num: &str) -> (r: Option<String>)
        ensures
            r.deep_view() == lookup_by_num_model(self@, num@),
    {
        let key: String = num.to_owned();
        let n = self.entries.len();
        let mut i: usize = 0;
        proof {
            assert(self@.skip(0) =~= self@);
        }
        while i < n
            invariant
                key@ == num@,
                0 <= i <= n,
                n == self.entries@.len(),
                lookup_by_num_model(self@, num@) == lookup_by_num_model(
                    self@.skip(i as int),
                    num@,
                ),
            decreases n - i,
        {
            let e = &self.entries[i];
            proof {
                assert(self@.skip(i as int).len() > 0);
                assert(self@.skip(i as int).first() == self@[i as int]);
                assert(self@.skip(i as int).drop_first() =~= self@.skip(i as int + 1));
                assert(self@[i as int] == self.entries@[i as int].model());
            }
            if e.is_listed && e.number == key {
                proof {
                    assert(lookup_by_num_model(self@, num@) == Some(self@[i as int].name));
                }
                return Some(e.name.clone());
            }
            i += 1;
        }
        proof {
            assert(self@.skip(n as int) =~= Seq::<EntryModel>::empty());
        }
        None
    }

    /// Returns all names (listed and unlisted) whose numbers begin with
    /// `areacode`, in entry order.
    pub fn names_by_ac(&self, areacode: &str) -> (r: Vec<String>)
        ensures
            r.deep_view() == names_with_prefix(self@, areacode@),
    {
        let n = self.entries.len();
        let mut out: Vec<String> = Vec::new();
        let mut i: usize = 0;
        proof {
            assert(self@.take(0) =~= Seq::<EntryModel>::empty());
            assert(out.deep_view() =~= Seq::<Seq<char>>::empty());
        }
        while i < n
            invariant
                0 <= i <= n,
                n == self.entries@.len(),
                out.deep_view() == names_with_prefix(self@.take(i as int), areacode@),
            decreases n - i,
        {
            let ghost prev = out.deep_view();
            proof {
                assert(self@.take(i as int + 1).drop_last() =~= self@.take(i as int));
                assert(self@.take(i as int + 1).last() == self@[i as int]);
                assert(self@[i as int] == self.entries@[i as int].model());
            }
            let e = &self.entries[i];
            if starts_with(e.number.as_str(), areacode) {
                out.push(e.name.clone());
                proof {
                    assert(out.deep_view() =~= prev.push(self@[i as int].name));
                }
            }
            i += 1;
        }
        proof {
            assert(self@.take(n as int) =~= self@);
        }
        out
    }
}

impl Default for PhoneBook {
    /// An empty PhoneBook.
    fn default() -> (book: Self)
        ensures
            book@ == Seq::<EntryModel>::empty(),
            book.wf(),
    {
        PhoneBook::new()
    }
}

proof fn lemma_lookup_model_push(s: Seq<EntryModel>, e: EntryModel, name: Seq<char>)
    requires
        !contains_name(s, name),
        e.name == name,
    ensures
        lookup_model(s.push(e), name) == if e.listed {
            Some(e.number)
        } else {
            None::<Seq<char>>
        },
    decreases s.len(),
{
    if s.len() == 0 {
        assert(s.push(e).first() == e);
        assert(s.push(e).drop_first() =~= Seq::<EntryModel>::empty());
    } else {
        assert(s.push(e).first() == s.first());
        if s.first().name == name {
            assert(contains_name(s, name));
        }
        assert(s.push(e).drop_first() =~= s.drop_first().push(e));
        if contains_name(s.drop_first(), name) {
            let i = choose|i: int|
                0 <= i < s.drop_first().len() && (#[trigger] s.drop_first()[i]).name == name;
            assert(s[i + 1].name == name);
            assert(contains_name(s, name));
        }
        lemma_lookup_model_push(s.drop_first(), e, name);
    }
}

/// After a successful insertion, a lookup of the inserted name returns the
/// new number when the entry is listed, and nothing when it is unlisted.
pub proof fn law_insert_then_lookup(
    s: Seq<EntryModel>,
    name: Seq<char>,
    number: Seq<char>,
    listed: bool,
)
    requires
        can_add(s, name, number, listed),
    ensures
        lookup_model(s.push(EntryModel { name, number, listed }), name) == if listed {
            Some(number)
        } else {
            None::<Seq<char>>
        },
{
    lemma_lookup_model_push(s, EntryModel { name, number, listed }, name);
}

/// What a lookup by name hands out comes from a listed entry, and a lookup
/// that finds nothing found no listed entry: an unlisted entry is never
/// revealed through it.
pub proof fn lemma_lookup_only_listed(s: Seq<EntryModel>, name: Seq<char>)
    ensures
        lookup_model(s, name) matches Some(number) ==> exists|i: int|
            0 <= i < s.len() && #[trigger] s[i] == (EntryModel { name, number, listed: true }),
        lookup_model(s, name) is None ==> forall|i: int|
            0 <= i < s.len() && (#[trigger] s[i]).name == name ==> !s[i].listed,
    decreases s.len(),
{
    if s.len() > 0 {
        lemma_lookup_only_listed(s.drop_first(), name);
        if !(s.first().name == name && s.first().listed) {
            match lookup_model(s.drop_first(), name) {
                Some(number) => {
                    let i = choose|i: int|
                        0 <= i < s.drop_first().len() && #[trigger] s.drop_first()[i]
                            == (EntryModel { name, number, listed: true });
                    assert(s[i + 1] == (EntryModel { name, number, listed: true }));
                },
                None => {
                    assert forall|i: int|
                        0 <= i < s.len() && (#[trigger] s[i]).name == name implies !s[i].listed by {
                        if i >= 1 {
                            assert(s.drop_first()[i - 1] == s[i]);
                        }
                    }
                },
            }
        }
    }
}

/// What a lookup by number hands out comes from a listed entry, and a lookup
/// that finds nothing found no listed entry: an unlisted entry is never
/// revealed through it.
pub proof fn lemma_lookup_by_num_only_listed(s: Seq<EntryModel>, number: Seq<char>)
    ensures
        lookup_by_num_model(s, number) matches Some(name) ==> exists|i: int|
            0 <= i < s.len() && #[trigger] s[i] == (EntryModel { name, number, listed: true }),
        lookup_by_num_model(s, number) is None ==> forall|i: int|
            0 <= i < s.len() && (#[trigger] s[i]).number == number ==> !s[i].listed,
    decreases s.len(),
{
    if s.len() > 0 {
        lemma_lookup_by_num_only_listed(s.drop_first(), number);
        if !(s.first().number == number && s.first().listed) {
            match lookup_by_num_model(s.drop_first(), number) {
                Some(name) => {
                    let i = choose|i: int|
                        0 <= i < s.drop_first().len() && #[trigger] s.drop_first()[i]
                            == (EntryModel { name, number, listed: true });
                    assert(s[i + 1] == (EntryModel { name, number, listed: true }));
                },
                None => {
                    assert forall|i: int|
                        0 <= i < s.len() && (#[trigger] s[i]).number == number
                        implies !s[i].listed by {
                        if i >= 1 {
                            assert(s.drop_first()[i - 1] == s[i]);
                        }
                    }
                },
            }
        }
    }
}

/// A name can be inserted only once: once an entry stands in the directory,
/// any further insertion under the same name is rejected, whatever its
/// number and flag are (and a rejected insertion leaves the directory,
/// hence the entry count, unchanged).
pub proof fn law_duplicate_name_rejected(
    s: Seq<EntryModel>,
    e: EntryModel,
    number: Seq<char>,
    listed: bool,
)
    ensures
        !can_add(s.push(e), e.name, number, listed),
{
    assert(s.push(e)[s.len() as int] == e);
    assert(contains_name(s.push(e), e.name));
}

/// An ill-formed number is rejected, whatever the other fields are.
pub proof fn law_invalid_number_rejected(
    s: Seq<EntryModel>,
    name: Seq<char>,
    number: Seq<char>,
    listed: bool,
)
    requires
        !valid_number(number),
    ensures
        !can_add(s, name, number, listed),
{
}

/// A listed number is unique: a second listed entry with the same number is
/// rejected, while an unlisted entry with that number is held only to name
/// uniqueness and number format.
pub proof fn law_listed_number_unique(s: Seq<EntryModel>, name: Seq<char>, number: Seq<char>)
    requires
        contains_listed_number(s, number),
    ensures
        !can_add(s, name, number, true),
        can_add(s, name, number, false) == (!contains_name(s, name) && valid_number(number)),
{
}

/// Whether `s` starts with the prefix `p`, character by character.
fn starts_with(s: &str, p: &str) -> (r: bool)
    ensures
        r == is_prefix(p@, s@),
{
    let sn = s.unicode_len();
    let pn = p.unicode_len();
    if pn > sn {
        return false;
    }
    let mut i: usize = 0;
    while i < pn
        invariant
            0 <= i <= pn,
            pn == p@.len(),
            pn <= sn == s@.len(),
            forall|k: int| 0 <= k < i ==> s@[k] == p@[k],
        decreases pn - i,
    {
        if s.get_char(i) != p.get_char(i) {
            proof {
                assert(s@.subrange(0, pn as int)[i as int] != p@[i as int]);
            }
            return false;
        }
        i += 1;
    }
    proof {
        assert(s@.subrange(0, pn as int) =~= p@);
    }
    true
}

} // verus!
