//! The ignore set: raw non-empty lines of a gitignore-style file, matched
//! against paths by substring containment.
use vstd::prelude::*;
use crate::strings::{is_substring, split_lines, split_lines_exec, str_contains, str_eq};

verus! {

/// A set of literal ignore lines. Order is irrelevant and duplicates
/// collapse; matching is plain substring containment, not glob syntax.
pub struct IgnoreSet {
    items: Vec<String>,
}

/// A path matches the ignore set when some member occurs in it.
pub open spec fn ignore_matched(ig: Set<Seq<char>>, path: Seq<char>) -> bool {
    exists|p: Seq<char>| #[trigger] ig.contains(p) && is_substring(p, path)
}

impl View for IgnoreSet {
    type V = Set<Seq<char>>;

    closed spec fn view(&self) -> Set<Seq<char>> {
        self.items@.map_values(|s: String| s@).to_set()
    }
}

impl IgnoreSet {
    /// The members are pairwise distinct and none is empty.
    pub closed spec fn wf(&self) -> bool {
        &&& self.items@.map_values(|s: String| s@).no_duplicates()
        &&& forall|i: int| 0 <= i < self.items@.len() ==> self.items@[i]@.len() > 0
    }

    /// The empty ignore set.
    pub fn new() -> (r: IgnoreSet)
        ensures
            r.wf(),
            r@ =~= Set::<Seq<char>>::empty(),
    {
        let items: Vec<String> = Vec::new();
        proof {
            let mapped = items@.map_values(|s: String| s@);
            assert forall|p: Seq<char>| !(#[trigger] mapped.to_set().contains(p)) by {
                assert(!mapped.contains(p));
            }
        }
        IgnoreSet { items }
    }

    /// Membership of one literal line.
    pub fn contains(&self, line: &str) -> (r: bool)
        ensures
            r == self@.contains(line@),
    {
        let ghost mapped = self.items@.map_values(|s: String| s@);
        let mut i: usize = 0;
        while i < self.items.len()
            invariant
                i <= self.items@.len(),
                mapped == self.items@.map_values(|s: String| s@),
                forall|j: int| 0 <= j < i ==> mapped[j] != line@,
            decreases self.items@.len() - i,
        {
            if str_eq(self.items[i].as_str(), line) {
                proof {
                    assert(mapped[i as int] == line@);
                    assert(mapped.contains(line@));
                }
                return true;
            }
            i = i + 1;
        }
        proof {
            if mapped.contains(line@) {
                let j = choose|j: int| 0 <= j < mapped.len() && mapped[j] == line@;
                assert(false);
            }
        }
        false
    }

    /// How many distinct lines the set holds.
    pub fn len(&self) -> (n: usize)
        requires
            self.wf(),
        ensures
            n as nat == self@.len(),
    {
        proof {
            self.items@.map_values(|s: String| s@).unique_seq_to_set();
        }
        self.items.len()
    }

    /// Whether the set holds no line at all.
    pub fn is_empty(&self) -> (r: bool)
        requires
            self.wf(),
        ensures
            r == (self@.len() == 0),
    {
        self.len() == 0
    }

    /// Adds one non-empty line; a line already present changes nothing.
    pub fn insert(&mut self, line: String)
        requires
            old(self).wf(),
            line@.len() > 0,
        ensures
            final(self).wf(),
            final(self)@ == old(self)@.insert(line@),
    {
        let ghost mapped = self.items@.map_values(|s: String| s@);
        if self.contains(line.as_str()) {
            proof {
                assert(old(self)@.insert(line@) =~= old(self)@);
            }
        } else {
            proof {
                assert(!mapped.contains(line@));
            }
            self.items.push(line);
            proof {
                let mapped2 = self.items@.map_values(|s: String| s@);
                assert(mapped2 =~= mapped.push(line@));
                assert forall|p: Seq<char>|
                    #[trigger] mapped2.to_set().contains(p)
                        == old(self)@.insert(line@).contains(p) by {
                    if mapped2.contains(p) {
                        let j = choose|j: int| 0 <= j < mapped2.len() && mapped2[j] == p;
                        if j < mapped.len() {
                            assert(mapped.contains(p));
                        }
                    }
                    if old(self)@.contains(p) {
                        let j = choose|j: int| 0 <= j < mapped.len() && mapped[j] == p;
                        assert(mapped2[j] == p);
                        assert(mapped2.contains(p));
                    }
                    if p == line@ {
                        assert(mapped2[mapped.len() as int] == p);
                        assert(mapped2.contains(p));
                    }
                }
                assert(self@ =~= old(self)@.insert(line@));
            }
        }
    }

    /// Whether some member of the set occurs in `path`.
    pub fn matches(&self, path: &str) -> (r: bool)
        ensures
            r == ignore_matched(self@, path@),
    {
        let ghost mapped = self.items@.map_values(|s: String| s@);
        let mut i: usize = 0;
        while i < self.items.len()
            invariant
                i <= self.items@.len(),
                mapped == self.items@.map_values(|s: String| s@),
                forall|j: int| 0 <= j < i ==> !is_substring(#[trigger] mapped[j], path@),
            decreases self.items@.len() - i,
        {
            if str_contains(path, self.items[i].as_str()) {
                proof {
                    assert(mapped.contains(mapped[i as int]));
                    assert(self@.contains(mapped[i as int]));
                }
                return true;
            }
            i = i + 1;
        }
        proof {
            assert forall|p: Seq<char>| #[trigger] self@.contains(p) implies !is_substring(
                p,
                path@,
            ) by {
                let j = choose|j: int| 0 <= j < mapped.len() && mapped[j] == p;
                assert(!is_substring(mapped[j], path@));
            }
        }
        false
    }
}

/// Turns the contents of a gitignore-style file, if one could be read, into
/// the ignore set: its non-empty lines, each kept verbatim. An unreadable or
/// absent file yields the empty set.
pub fn read_gitignore(content: Option<&str>) -> (r: IgnoreSet)
    ensures
        r.wf(),
        match content {
            Option::Some(c) => forall|l: Seq<char>|
                #[trigger] r@.contains(l) <==> (split_lines(c@).contains(l) && l.len() > 0),
            Option::None => r@ =~= Set::<Seq<char>>::empty(),
        },
{
    match content {
        Option::None => IgnoreSet::new(),
        Option::Some(c) => {
            let lines = split_lines_exec(c);
            let ghost lseq = lines@.map_values(|l: String| l@);
            let mut out = IgnoreSet::new();
            let mut i: usize = 0;
            while i < lines.len()
                invariant
                    i <= lines@.len(),
                    lseq == lines@.map_values(|l: String| l@),
                    lseq == split_lines(c@),
                    out.wf(),
                    forall|l: Seq<char>|
                        #[trigger] out@.contains(l) <==> (lseq.take(i as int).contains(l)
                            && l.len() > 0),
                decreases lines@.len() - i,
            {
                let line = &lines[i];
                let ghost prev = out@;
                if !line.as_str().is_empty() {
                    out.insert(line.clone());
                }
                proof {
                    assert(lseq.take(i + 1) =~= lseq.take(i as int).push(lseq[i as int]));
                    assert forall|l: Seq<char>|
                        #[trigger] out@.contains(l) == (lseq.take(i + 1).contains(l) && l.len()
                            > 0) by {
                        if lseq.take(i + 1).contains(l) {
                            let j = choose|j: int|
                                0 <= j < lseq.take(i + 1).len() && #[trigger] lseq.take(i + 1)[j]
                                    == l;
                            if j < i {
                                assert(lseq.take(i as int)[j] == l);
                                assert(lseq.take(i as int).contains(l));
                            }
                        }
                        if lseq.take(i as int).contains(l) {
                            let j = choose|j: int|
                                0 <= j < i && lseq.take(i as int)[j] == l;
                            assert(lseq.take(i + 1)[j] == l);
                            assert(lseq.take(i + 1).contains(l));
                        }
                        if l == lseq[i as int] && l.len() > 0 {
                            assert(lseq.take(i + 1)[i as int] == l);
                            assert(lseq.take(i + 1).contains(l));
                        }
                    }
                }
                i = i + 1;
            }
            proof {
                assert(lseq.take(lseq.len() as int) =~= lseq);
            }
            out
        },
    }
}

} // verus!
