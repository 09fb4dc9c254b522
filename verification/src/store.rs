//! The key-value document that backs all application state: an ordered list
//! of string-keyed entries, each holding one of the typed values the
//! application stores. Every key occurs at most once; lookups, updates and
//! removals are specified against a mathematical association list.

use vstd::prelude::*;
use vstd::string::StrSliceExecFns;

use crate::tasks::{Task, TaskView};

verus! {

/// Mathematical model of a stored value.
pub ghost enum ValueView {
    Str(Seq<char>),
    Bool(bool),
    Int(int),
    Tasks(Seq<TaskView>),
}

/// A value the document can hold under a key.
#[derive(Debug, PartialEq, Eq)]
pub enum Value {
    Str(String),
    Bool(bool),
    Int(i64),
    Tasks(Vec<Task>),
}

impl View for Value {
    type V = ValueView;

    open spec fn view(&self) -> ValueView {
        match self {
            Value::Str(s) => ValueView::Str(s@),
            Value::Bool(b) => ValueView::Bool(*b),
            Value::Int(i) => ValueView::Int(*i as int),
            Value::Tasks(ts) => ValueView::Tasks(ts.deep_view()),
        }
    }
}

impl DeepView for Value {
    type V = ValueView;

    open spec fn deep_view(&self) -> ValueView {
        self@
    }
}

/// Mathematical model of one entry of the document.
pub ghost struct EntryView {
    pub key: Seq<char>,
    pub value: ValueView,
}

/// One entry of the document: a key and the value stored under it.
pub struct Entry {
    pub key: String,
    pub value: Value,
}

impl View for Entry {
    type V = EntryView;

    open spec fn view(&self) -> EntryView {
        EntryView { key: self.key@, value: self.value@ }
    }
}

impl DeepView for Entry {
    type V = EntryView;

    open spec fn deep_view(&self) -> EntryView {
        self@
    }
}

/// The value stored under `key`, reading the entries front to back.
pub open spec fn lookup(s: Seq<EntryView>, key: Seq<char>) -> Option<ValueView>
    decreases s.len(),
{
    if s.len() == 0 {
        None
    } else if s[0].key == key {
        Some(s[0].value)
    } else {
        lookup(s.drop_first(), key)
    }
}

/// No two entries share a key.
pub open spec fn unique_keys(s: Seq<EntryView>) -> bool {
    forall|i: int, j: int| 0 <= i < j < s.len() ==> s[i].key != s[j].key
}

/// A value model that a stored value can carry: its integer, if it is one,
/// fits the stored integer type.
pub open spec fn value_ok(v: ValueView) -> bool {
    match v {
        ValueView::Int(i) => i64::MIN <= i <= i64::MAX,
        _ => true,
    }
}

/// Every value of the entries is one a stored value can carry.
pub open spec fn entries_ok(s: Seq<EntryView>) -> bool {
    forall|i: int| 0 <= i < s.len() ==> value_ok(#[trigger] s[i].value)
}

/// The string stored under a key, if the key holds a string.
pub open spec fn as_str_view(g: Option<ValueView>) -> Option<Seq<char>> {
    match g {
        Some(ValueView::Str(s)) => Some(s),
        _ => None,
    }
}

/// The boolean stored under a key, if the key holds a boolean.
pub open spec fn as_bool_view(g: Option<ValueView>) -> Option<bool> {
    match g {
        Some(ValueView::Bool(b)) => Some(b),
        _ => None,
    }
}

/// The integer stored under a key, if the key holds an integer.
pub open spec fn as_int_view(g: Option<ValueView>) -> Option<int> {
    match g {
        Some(ValueView::Int(i)) => Some(i),
        _ => None,
    }
}

/// The task list stored under a key, if the key holds a task list.
pub open spec fn as_tasks_view(g: Option<ValueView>) -> Option<Seq<TaskView>> {
    match g {
        Some(ValueView::Tasks(ts)) => Some(ts),
        _ => None,
    }
}

proof fn lemma_lookup_prefix(s: Seq<EntryView>, key: Seq<char>, i: int)
    requires
        0 <= i <= s.len(),
        forall|j: int| 0 <= j < i ==> s[j].key != key,
    ensures
        lookup(s, key) == lookup(s.skip(i), key),
    decreases i,
{
    if i == 0 {
        assert(s.skip(0) =~= s);
    } else {
        lemma_lookup_prefix(s, key, i - 1);
        assert(s.skip(i - 1)[0] == s[i - 1]);
        assert(s.skip(i - 1).drop_first() =~= s.skip(i));
    }
}

proof fn lemma_lookup_none(s: Seq<EntryView>, key: Seq<char>)
    ensures
        (lookup(s, key) is None) <==> (forall|i: int| 0 <= i < s.len() ==> s[i].key != key),
    decreases s.len(),
{
    if s.len() > 0 {
        lemma_lookup_none(s.drop_first(), key);
        if s[0].key == key {
            assert(!(forall|i: int| 0 <= i < s.len() ==> s[i].key != key)) by {
                assert(!(s[0].key != key));
            }
        } else {
            if lookup(s.drop_first(), key) is None {
                assert forall|i: int| 0 <= i < s.len() implies s[i].key != key by {
                    if i > 0 {
                        assert(s.drop_first()[i - 1] == s[i]);
                    }
                }
            } else {
                assert(exists|j: int|
                    0 <= j < s.drop_first().len() && s.drop_first()[j].key == key);
                let j = choose|j: int|
                    0 <= j < s.drop_first().len() && s.drop_first()[j].key == key;
                assert(s[j + 1] == s.drop_first()[j]);
                assert(!(s[j + 1].key != key));
            }
        }
    }
}

proof fn lemma_lookup_update(s: Seq<EntryView>, i: int, e: EntryView, k: Seq<char>)
    requires
        0 <= i < s.len(),
        e.key == s[i].key,
        forall|j: int| 0 <= j < i ==> s[j].key != e.key,
    ensures
        k == e.key ==> lookup(s.update(i, e), k) == Some(e.value),
        k != e.key ==> lookup(s.update(i, e), k) == lookup(s, k),
    decreases i,
{
    let t = s.update(i, e);
    if i == 0 {
        if k != e.key {
            assert(t.drop_first() =~= s.drop_first());
        }
    } else {
        assert(t[0] == s[0]);
        if s[0].key != k {
            lemma_lookup_update(s.drop_first(), i - 1, e, k);
            assert(s.drop_first().update(i - 1, e) =~= t.drop_first());
        }
    }
}

proof fn lemma_lookup_push(s: Seq<EntryView>, e: EntryView, k: Seq<char>)
    ensures
        lookup(s.push(e), k) == (if lookup(s, k) is Some {
            lookup(s, k)
        } else if k == e.key {
            Some(e.value)
        } else {
            None
        }),
    decreases s.len(),
{
    if s.len() == 0 {
        assert(s.push(e)[0] == e);
        assert(s.push(e).drop_first() =~= Seq::<EntryView>::empty());
        if k == e.key {
            assert(lookup(s.push(e), k) == Some(e.value));
        } else {
            assert(lookup(s.push(e), k) == lookup(Seq::<EntryView>::empty(), k));
        }
    } else {
        assert(s.push(e)[0] == s[0]);
        if s[0].key == k {
            assert(lookup(s.push(e), k) == Some(s[0].value));
            assert(lookup(s, k) == Some(s[0].value));
        } else {
            lemma_lookup_push(s.drop_first(), e, k);
            assert(s.push(e).drop_first() =~= s.drop_first().push(e));
            assert(lookup(s.push(e), k) == lookup(s.drop_first().push(e), k));
            assert(lookup(s, k) == lookup(s.drop_first(), k));
        }
    }
}

proof fn lemma_lookup_remove(s: Seq<EntryView>, i: int, k: Seq<char>)
    requires
        0 <= i < s.len(),
        unique_keys(s),
    ensures
        k == s[i].key ==> lookup(s.remove(i), k) is None,
        k != s[i].key ==> lookup(s.remove(i), k) == lookup(s, k),
    decreases i,
{
    let t = s.remove(i);
    s.remove_ensures(i);
    if i == 0 {
        assert(t =~= s.drop_first());
        if k == s[0].key {
            assert(forall|j: int| 0 <= j < t.len() ==> t[j] == s[j + 1]);
            lemma_lookup_none(t, k);
        }
    } else {
        assert(t[0] == s[0]);
        if s[0].key != k {
            assert(unique_keys(s.drop_first())) by {
                assert(forall|x: int, y: int|
                    0 <= x < y < s.drop_first().len() ==> s.drop_first()[x] == s[x + 1]
                        && s.drop_first()[y] == s[y + 1]);
            }
            lemma_lookup_remove(s.drop_first(), i - 1, k);
            assert(s.drop_first().remove(i - 1) =~= t.drop_first());
        }
    }
}

/// Two string slices hold the same characters.
pub fn str_eq(a: &str, b: &str) -> (r: bool)
    ensures
        r == (a@ == b@),
{
    let na = a.unicode_len();
    let nb = b.unicode_len();
    if na != nb {
        return false;
    }
    let mut i: usize = 0;
    while i < na
        invariant
            na == a@.len(),
            na == b@.len(),
            i <= na,
            forall|j: int| 0 <= j < i ==> a@[j] == b@[j],
        decreases na - i,
    {
        if a.get_char(i) != b.get_char(i) {
            return false;
        }
        i += 1;
    }
    proof {
        assert(a@ =~= b@);
    }
    true
}

/// The whole persistent document, held in memory. Callers persist it after
/// each mutation; a mutation never fails in memory.
pub struct Store {
    entries: Vec<Entry>,
}

impl Store {
    /// The entries of the document, in insertion order.
    pub closed spec fn entries_view(&self) -> Seq<EntryView> {
        self.entries.deep_view()
    }

    /// The document is well formed: each key occurs at most once.
    pub open spec fn wf(&self) -> bool {
        unique_keys(self.entries_view())
    }

    /// The value stored under `key`, if any.
    pub open spec fn gets(&self, key: Seq<char>) -> Option<ValueView> {
        lookup(self.entries_view(), key)
    }

    /// The entries a document holds are always within the model: integers
    /// fit the stored integer type.
    pub proof fn lemma_entries_ok(&self)
        ensures
            entries_ok(self.entries_view()),
    {
        assert forall|i: int|
            0 <= i < self.entries_view().len() implies value_ok(
            #[trigger] self.entries_view()[i].value,
        ) by {
            let e = self.entries@[i];
            assert(self.entries_view()[i] == e.deep_view());
            match e.value {
                Value::Str(_) => {},
                Value::Bool(_) => {},
                Value::Int(x) => {
                    assert(e.deep_view().value == ValueView::Int(x as int));
                },
                Value::Tasks(_) => {},
            }
        }
    }

    /// The entries of the document, for the encoder.
    pub(crate) fn raw_entries(&self) -> (r: &Vec<Entry>)
        ensures
            r.deep_view() == self.entries_view(),
    {
        &self.entries
    }

    /// A document made of the given entries, whose keys must not repeat.
    pub(crate) fn from_entries(entries: Vec<Entry>) -> (r: Store)
        requires
            unique_keys(entries.deep_view()),
        ensures
            r.wf(),
            r.entries_view() == entries.deep_view(),
    {
        Store { entries }
    }

    /// An empty document, as created on first run.
    pub fn new() -> (r: Store)
        ensures
            r.wf(),
            r.entries_view() =~= Seq::<EntryView>::empty(),
    {
        Store { entries: Vec::new() }
    }

    /// The index of the entry holding `key`, scanning front to back.
    fn find(&self, key: &str) -> (r: Option<usize>)
        ensures
            match r {
                Some(i) => {
                    &&& i < self.entries_view().len()
                    &&& self.entries_view()[i as int].key == key@
                    &&& forall|j: int| 0 <= j < i ==> self.entries_view()[j].key != key@
                    &&& self.gets(key@) == Some(self.entries_view()[i as int].value)
                },
                None => self.gets(key@) is None,
            },
    {
        let n = self.entries.len();
        let mut i: usize = 0;
        while i < n
            invariant
                n == self.entries.len(),
                i <= n,
                forall|j: int| 0 <= j < i ==> self.entries.deep_view()[j].key != key@,
            decreases n - i,
        {
            if str_eq(self.entries[i].key.as_str(), key) {
                proof {
                    lemma_lookup_prefix(self.entries_view(), key@, i as int);
                    assert(self.entries_view().skip(i as int)[0] == self.entries_view()[i as int]);
                }
                return Some(i);
            }
            i += 1;
        }
        proof {
            lemma_lookup_prefix(self.entries_view(), key@, n as int);
            assert(self.entries_view().skip(n as int) =~= Seq::<EntryView>::empty());
        }
        None
    }

    /// Whether any value is stored under `key`.
    pub fn has_key(&self, key: &str) -> (r: bool)
        ensures
            r == (self.gets(key@) is Some),
    {
        match self.find(key) {
            Some(_) => true,
            None => false,
        }
    }

    /// The value stored under `key`, if any.
    pub fn get(&self, key: &str) -> (r: Option<&Value>)
        ensures
            match r {
                Some(v) => self.gets(key@) == Some(v@),
                None => self.gets(key@) is None,
            },
    {
        match self.find(key) {
            Some(i) => Some(&self.entries[i].value),
            None => None,
        }
    }

    /// Stores `value` under `key`, replacing any previous value. Every other
    /// key keeps its value.
    pub fn set(&mut self, key: &str, value: Value)
        requires
            old(self).wf(),
        ensures
            final(self).wf(),
            final(self).gets(key@) == Some(value@),
            forall|k2: Seq<char>|
                k2 != key@ ==> final(self).gets(k2) == old(self).gets(k2),
    {
        let ghost old_entries = self.entries_view();
        let ghost v = value@;
        match self.find(key) {
            Some(i) => {
                let e = Entry { key: String::from_str(key), value };
                let ghost ev = e@;
                self.entries[i] = e;
                proof {
                    assert(self.entries_view() =~= old_entries.update(i as int, ev));
                    assert forall|k2: Seq<char>| k2 != key@ implies lookup(
                        self.entries_view(),
                        k2,
                    ) == lookup(old_entries, k2) by {
                        lemma_lookup_update(old_entries, i as int, ev, k2);
                    }
                    lemma_lookup_update(old_entries, i as int, ev, key@);
                    assert forall|x: int, y: int|
                        0 <= x < y < self.entries_view().len() implies self.entries_view()[x].key
                        != self.entries_view()[y].key by {
                        assert(self.entries_view()[x].key == old_entries[x].key);
                        assert(self.entries_view()[y].key == old_entries[y].key);
                    }
                }
            },
            None => {
                let e = Entry { key: String::from_str(key), value };
                let ghost ev = e@;
                self.entries.push(e);
                proof {
                    assert(self.entries_view() =~= old_entries.push(ev));
                    assert forall|k2: Seq<char>| k2 != key@ implies lookup(
                        self.entries_view(),
                        k2,
                    ) == lookup(old_entries, k2) by {
                        lemma_lookup_push(old_entries, ev, k2);
                    }
                    lemma_lookup_push(old_entries, ev, key@);
                    lemma_lookup_none(old_entries, key@);
                    assert forall|x: int, y: int|
                        0 <= x < y < self.entries_view().len() implies self.entries_view()[x].key
                        != self.entries_view()[y].key by {
                        if y < old_entries.len() {
                            assert(self.entries_view()[x] == old_entries[x]);
                            assert(self.entries_view()[y] == old_entries[y]);
                        } else {
                            assert(self.entries_view()[x] == old_entries[x]);
                            assert(self.entries_view()[y] == ev);
                        }
                    }
                }
            },
        }
    }

    /// Deletes the entry stored under `key`, if there is one; reports whether
    /// there was. Every other key keeps its value.
    pub fn remove(&mut self, key: &str) -> (r: bool)
        requires
            old(self).wf(),
        ensures
            final(self).wf(),
            final(self).gets(key@) is None,
            forall|k2: Seq<char>|
                k2 != key@ ==> final(self).gets(k2) == old(self).gets(k2),
            r == (old(self).gets(key@) is Some),
    {
        let ghost old_entries = self.entries_view();
        match self.find(key) {
            Some(i) => {
                self.entries.remove(i);
                proof {
                    assert(self.entries_view() =~= old_entries.remove(i as int));
                    assert forall|k2: Seq<char>| k2 != key@ implies lookup(
                        self.entries_view(),
                        k2,
                    ) == lookup(old_entries, k2) by {
                        lemma_lookup_remove(old_entries, i as int, k2);
                    }
                    lemma_lookup_remove(old_entries, i as int, key@);
                    old_entries.remove_ensures(i as int);
                    assert forall|x: int, y: int|
                        0 <= x < y < self.entries_view().len() implies self.entries_view()[x].key
                        != self.entries_view()[y].key by {
                        let sx: int = if x < i as int { x } else { x + 1 };
                        let sy: int = if y < i as int { y } else { y + 1 };
                        assert(self.entries_view()[x] == old_entries[sx]);
                        assert(self.entries_view()[y] == old_entries[sy]);
                    }
                }
                true
            },
            None => false,
        }
    }

    /// The string stored under `key`, if `key` holds a string; a value of
    /// another type reads as absent.
    pub fn get_str(&self, key: &str) -> (r: Option<String>)
        ensures
            match r {
                Some(s) => as_str_view(self.gets(key@)) == Some(s@),
                None => as_str_view(self.gets(key@)) is None,
            },
    {
        match self.get(key) {
            Some(Value::Str(s)) => Some(s.clone()),
            _ => None,
        }
    }

    /// The boolean stored under `key`, if `key` holds a boolean; a value of
    /// another type reads as absent.
    pub fn get_bool(&self, key: &str) -> (r: Option<bool>)
        ensures
            r == as_bool_view(self.gets(key@)),
    {
        match self.get(key) {
            Some(Value::Bool(b)) => Some(*b),
            _ => None,
        }
    }

    /// The integer stored under `key`, if `key` holds an integer; a value of
    /// another type reads as absent.
    pub fn get_int(&self, key: &str) -> (r: Option<i64>)
        ensures
            match r {
                Some(i) => as_int_view(self.gets(key@)) == Some(i as int),
                None => as_int_view(self.gets(key@)) is None,
            },
    {
        match self.get(key) {
            Some(Value::Int(i)) => Some(*i),
            _ => None,
        }
    }

    /// The task list stored under `key`, if `key` holds one; a value of
    /// another type reads as absent.
    pub fn get_task_list(&self, key: &str) -> (r: Option<Vec<Task>>)
        ensures
            match r {
                Some(ts) => as_tasks_view(self.gets(key@)) == Some(ts.deep_view()),
                None => as_tasks_view(self.gets(key@)) is None,
            },
    {
        match self.get(key) {
            Some(Value::Tasks(ts)) => {
                let c = ts.clone();
                proof {
                    assert(c.deep_view() =~= ts.deep_view());
                }
                Some(c)
            },
            _ => None,
        }
    }
}

} // verus!
