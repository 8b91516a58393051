use vstd::prelude::*;
use vstd::string::*;

verus! {

/// The system prompt of the pirate chatbot.
pub const PIRATE_PROMPT: &'static str = "The assistant will act like a pirate";

/// The reply when the model fails to answer.
pub const ERROR_REPLY: &'static str = "Error generating response";

/// The text sent back to the user: the model's answer, or a fixed message where it failed.
pub fn reply_or_error(response: Option<String>) -> (r: String)
    ensures
        match response {
            Some(msg) => r@ == msg@,
            None => r@ == ERROR_REPLY@,
        },
{
    match response {
        Some(msg) => msg,
        None => String::from_str(ERROR_REPLY),
    }
}

/// The file that holds a user's conversation: the user name followed by `.txt`.
pub fn history_file_name(username: &str) -> (r: String)
    ensures
        r@ == username@ + ".txt"@,
{
    let mut r = String::from_str(username);
    r.append(".txt");
    r
}

/// One line of a conversation history: the role, a colon and a space, then the content.
pub fn history_line(role: &str, content: &str) -> (r: String)
    ensures
        r@ == role@ + ": "@ + content@,
{
    let mut r = String::from_str(role);
    r.append(": ");
    r.append(content);
    r
}

/// Whether no two entries share a name.
pub open spec fn names_distinct<T>(s: Seq<(String, T)>) -> bool {
    forall|i: int, j: int| 0 <= i < j < s.len() ==> (#[trigger] s[i]).0@ != (#[trigger] s[j]).0@
}

/// Whether some entry has the given name.
pub open spec fn has_name<T>(s: Seq<(String, T)>, name: Seq<char>) -> bool {
    exists|i: int| 0 <= i < s.len() && (#[trigger] s[i]).0@ == name
}

/// The value of the entry with the given name.
pub open spec fn value_of<T>(s: Seq<(String, T)>, name: Seq<char>) -> T {
    s[choose|i: int| 0 <= i < s.len() && (#[trigger] s[i]).0@ == name].1
}

/// The map from names to values that the entries hold.
pub open spec fn entries_map<T>(s: Seq<(String, T)>) -> Map<Seq<char>, T> {
    Map::new(|name: Seq<char>| has_name(s, name), |name: Seq<char>| value_of(s, name))
}

/// One session per user name.
pub struct SessionTable<T> {
    entries: Vec<(String, T)>,
}

impl<T> View for SessionTable<T> {
    type V = Map<Seq<char>, T>;

    closed spec fn view(&self) -> Map<Seq<char>, T> {
        entries_map(self.entries@)
    }
}

impl<T> SessionTable<T> {
    #[verifier::type_invariant]
    closed spec fn inv(&self) -> bool {
        names_distinct(self.entries@)
    }

    /// An empty table.
    pub fn new() -> (r: Self)
        ensures
            r@ == Map::<Seq<char>, T>::empty(),
    {
        let r = SessionTable { entries: Vec::new() };
        assert(r@ =~= Map::<Seq<char>, T>::empty());
        r
    }

    /// The position of the entry with the given name.
    fn find(&self, name: &String) -> (r: Option<usize>)
        ensures
            match r {
                Some(i) => i < self.entries@.len() && self.entries@[i as int].0@ == name@,
                None => !has_name(self.entries@, name@),
            },
    {
        let mut i: usize = 0;
        while i < self.entries.len()
            invariant
                i <= self.entries@.len(),
                forall|k: int| 0 <= k < i ==> (#[trigger] self.entries@[k]).0@ != name@,
            decreases self.entries.len() - i,
        {
            if self.entries[i].0 == *name {
                return Some(i);
            }
            i = i + 1;
        }
        None
    }

    /// Whether the user has a session.
    pub fn contains(&self, name: &String) -> (r: bool)
        ensures
            r == self@.contains_key(name@),
    {
        self.find(name).is_some()
    }

    /// The number of sessions.
    pub fn len(&self) -> (r: usize)
        ensures
            r == self@.len(),
    {
        proof {
            use_type_invariant(self);
            lemma_entries_len(self.entries@);
        }
        self.entries.len()
    }

    /// The session of the user, if there is one.
    pub fn get(&self, name: &String) -> (r: Option<&T>)
        ensures
            match r {
                Some(v) => self@.contains_key(name@) && *v == self@[name@],
                None => !self@.contains_key(name@),
            },
    {
        proof {
            use_type_invariant(self);
        }
        match self.find(name) {
            Some(i) => {
                let ghost s = self.entries@;
                let ghost c = choose|k: int| 0 <= k < s.len() && (#[trigger] s[k]).0@ == name@;
                assert(c == i);
                Some(&self.entries[i].1)
            },
            None => None,
        }
    }

    /// Takes the user's session out of the table.
    pub fn take(&mut self, name: &String) -> (r: Option<T>)
        ensures
            match r {
                Some(v) => {
                    &&& old(self)@.contains_key(name@)
                    &&& v == old(self)@[name@]
                    &&& final(self)@ == old(self)@.remove(name@)
                },
                None => !old(self)@.contains_key(name@) && final(self)@ == old(self)@,
            },
    {
        proof {
            use_type_invariant(&*self);
        }
        match self.find(name) {
            Some(i) => {
                let ghost s = self.entries@;
                let ghost c = choose|k: int| 0 <= k < s.len() && (#[trigger] s[k]).0@ == name@;
                assert(c == i);
                let mut entries: Vec<(String, T)> = Vec::new();
                std::mem::swap(&mut entries, &mut self.entries);
                let (_, v) = entries.remove(i);
                let ghost t = entries@;
                assert(t == s.remove(i as int));
                assert forall|a: int, b: int| 0 <= a < b < t.len() implies (#[trigger] t[a]).0@
                    != (#[trigger] t[b]).0@ by {
                    let a2 = if a < i { a } else { a + 1 };
                    let b2 = if b < i { b } else { b + 1 };
                    assert(t[a] == s[a2] && t[b] == s[b2]);
                }
                proof {
                    lemma_remove_map(s, i as int);
                }
                self.entries = entries;
                Some(v)
            },
            None => None,
        }
    }

    /// Gives the user the session `value`, replacing any earlier one.
    pub fn insert(&mut self, name: String, value: T)
        ensures
            final(self)@ == old(self)@.insert(name@, value),
    {
        proof {
            use_type_invariant(&*self);
        }
        let ghost s0 = self.entries@;
        let ghost n = name@;
        let _ = self.take(&name);
        proof {
            use_type_invariant(&*self);
        }
        let ghost s1 = self.entries@;
        assert(!has_name(s1, n)) by {
            if has_name(s1, n) {
                assert(entries_map(s1).contains_key(n));
            }
        }
        let mut entries: Vec<(String, T)> = Vec::new();
        std::mem::swap(&mut entries, &mut self.entries);
        entries.push((name, value));
        let ghost s2 = entries@;
        assert(s2 == s1.push((s2.last().0, value)));
        assert forall|a: int, b: int| 0 <= a < b < s2.len() implies (#[trigger] s2[a]).0@
            != (#[trigger] s2[b]).0@ by {
            if b == s2.len() - 1 {
                assert(s2[a] == s1[a]);
            } else {
                assert(s2[a] == s1[a] && s2[b] == s1[b]);
            }
        }
        proof {
            lemma_push_map(s1, s2, n, value);
        }
        self.entries = entries;
    }
}

/// Removing the entry at `i` removes its name from the map.
proof fn lemma_remove_map<T>(s: Seq<(String, T)>, i: int)
    requires
        names_distinct(s),
        0 <= i < s.len(),
    ensures
        entries_map(s.remove(i)) == entries_map(s).remove(s[i].0@),
{
    let t = s.remove(i);
    let n = s[i].0@;
    assert forall|k: Seq<char>| has_name(t, k) <==> (has_name(s, k) && k != n) by {
        if has_name(t, k) {
            let a = choose|a: int| 0 <= a < t.len() && (#[trigger] t[a]).0@ == k;
            let a2 = if a < i { a } else { a + 1 };
            assert(t[a] == s[a2]);
        }
        if has_name(s, k) && k != n {
            let a = choose|a: int| 0 <= a < s.len() && (#[trigger] s[a]).0@ == k;
            assert(a != i);
            let a2 = if a < i { a } else { a - 1 };
            assert(t[a2] == s[a]);
        }
    }
    assert forall|k: Seq<char>| has_name(t, k) implies value_of(t, k) == value_of(s, k) by {
        let a = choose|a: int| 0 <= a < t.len() && (#[trigger] t[a]).0@ == k;
        let b = choose|b: int| 0 <= b < s.len() && (#[trigger] s[b]).0@ == k;
        let a2 = if a < i { a } else { a + 1 };
        assert(t[a] == s[a2]);
        assert(a2 == b);
    }
    assert(entries_map(t) =~= entries_map(s).remove(n));
}

/// Pushing an entry with a new name adds it to the map.
proof fn lemma_push_map<T>(s1: Seq<(String, T)>, s2: Seq<(String, T)>, n: Seq<char>, v: T)
    requires
        names_distinct(s1),
        !has_name(s1, n),
        s2.len() == s1.len() + 1,
        forall|a: int| 0 <= a < s1.len() ==> s2[a] == s1[a],
        s2.last().0@ == n,
        s2.last().1 == v,
    ensures
        entries_map(s2) == entries_map(s1).insert(n, v),
{
    assert forall|k: Seq<char>| has_name(s2, k) <==> (has_name(s1, k) || k == n) by {
        if has_name(s2, k) {
            let a = choose|a: int| 0 <= a < s2.len() && (#[trigger] s2[a]).0@ == k;
            if a < s1.len() {
                assert(s1[a] == s2[a]);
            }
        }
        if has_name(s1, k) {
            let a = choose|a: int| 0 <= a < s1.len() && (#[trigger] s1[a]).0@ == k;
            assert(s2[a] == s1[a]);
        }
        if k == n {
            assert(s2[s2.len() - 1].0@ == n);
        }
    }
    assert forall|k: Seq<char>| has_name(s2, k) implies value_of(s2, k) == (if k == n {
        v
    } else {
        value_of(s1, k)
    }) by {
        let a = choose|a: int| 0 <= a < s2.len() && (#[trigger] s2[a]).0@ == k;
        if k == n {
            if a < s1.len() {
                assert(s1[a] == s2[a]);
            }
            assert(a == s2.len() - 1);
        } else {
            assert(a < s1.len());
            let b = choose|b: int| 0 <= b < s1.len() && (#[trigger] s1[b]).0@ == k;
            assert(s2[b] == s1[b]);
            if a != b {
                assert(s1[a] == s2[a]);
            }
        }
    }
    assert(entries_map(s2) =~= entries_map(s1).insert(n, v));
}

/// With distinct names the map has one key per entry.
proof fn lemma_entries_len<T>(s: Seq<(String, T)>)
    requires
        names_distinct(s),
    ensures
        entries_map(s).dom().finite(),
        entries_map(s).len() == s.len(),
    decreases s.len(),
{
    if s.len() == 0 {
        assert(entries_map(s).dom() =~= Set::<Seq<char>>::empty());
    } else {
        let t = s.drop_last();
        assert forall|a: int, b: int| 0 <= a < b < t.len() implies (#[trigger] t[a]).0@
            != (#[trigger] t[b]).0@ by {
            assert(t[a] == s[a] && t[b] == s[b]);
        }
        lemma_entries_len(t);
        let n = s.last().0@;
        assert(!has_name(t, n)) by {
            if has_name(t, n) {
                let a = choose|a: int| 0 <= a < t.len() && (#[trigger] t[a]).0@ == n;
                assert(t[a] == s[a]);
            }
        }
        assert forall|a: int| 0 <= a < t.len() implies s[a] == t[a] by {}
        lemma_push_map(t, s, n, s.last().1);
        assert(entries_map(s).dom() =~= entries_map(t).dom().insert(n));
    }
}

} // verus!

verus! {

/// What the table gives back of a write: after giving `name` the session `v`, the table
/// holds `v` for `name`, the other users keep theirs, and taking `name` out again leaves
/// the table as it was without `name`.
pub proof fn lemma_insert_then_take<T>(m: Map<Seq<char>, T>, name: Seq<char>, v: T)
    ensures
        m.insert(name, v).contains_key(name),
        m.insert(name, v)[name] == v,
        forall|k: Seq<char>| k != name ==> (#[trigger] m.insert(name, v).contains_key(k)) == m.contains_key(k),
        forall|k: Seq<char>| k != name && m.contains_key(k) ==> #[trigger] m.insert(name, v)[k] == m[k],
        m.insert(name, v).remove(name) == m.remove(name),
{
    assert(m.insert(name, v).remove(name) =~= m.remove(name));
}

} // verus!
