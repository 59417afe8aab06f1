use vstd::prelude::*;
use crate::grid::Cell;

verus! {

/// The wall cells painted by the user: a set of cells, held as a list
/// without repeats.
pub struct Walls {
    cells: Vec<Cell>,
}

impl View for Walls {
    type V = Set<Cell>;

    closed spec fn view(&self) -> Set<Cell> {
        self.cells@.to_set()
    }
}

/// Removing one entry from a list without repeats removes that cell from its set.
proof fn lemma_remove_at(s: Seq<Cell>, i: int)
    requires
        s.no_duplicates(),
        0 <= i < s.len(),
    ensures
        s.remove(i).no_duplicates(),
        s.remove(i).to_set() == s.to_set().remove(s[i]),
{
    let r = s.remove(i);
    assert forall|a: int, b: int| 0 <= a < r.len() && 0 <= b < r.len() && a != b implies r[a] != r[b] by {
        let a2 = if a < i { a } else { a + 1 };
        let b2 = if b < i { b } else { b + 1 };
        assert(r[a] == s[a2] && r[b] == s[b2]);
    }
    assert forall|c: Cell| r.to_set().contains(c) <==> s.to_set().remove(s[i]).contains(c) by {
        if r.to_set().contains(c) {
            let k = choose|k: int| 0 <= k < r.len() && r[k] == c;
            let k2 = if k < i { k } else { k + 1 };
            assert(s[k2] == c);
            assert(k2 != i);
        }
        if s.to_set().remove(s[i]).contains(c) {
            let k = choose|k: int| 0 <= k < s.len() && s[k] == c;
            assert(k != i);
            let k2 = if k < i { k } else { k - 1 };
            assert(r[k2] == c);
        }
    }
    assert(r.to_set() =~= s.to_set().remove(s[i]));
}

impl Walls {
    #[verifier::type_invariant]
    closed spec fn no_repeats(&self) -> bool {
        self.cells@.no_duplicates()
    }

    /// No painted walls.
    pub fn new() -> (res: Walls)
        ensures
            res@ == Set::<Cell>::empty(),
    {
        let res = Walls { cells: Vec::new() };
        assert(res.cells@.to_set() =~= Set::<Cell>::empty());
        res
    }

    /// Index of `c` in the list, if painted.
    fn find(&self, c: Cell) -> (res: Option<usize>)
        ensures
            match res {
                Some(i) => i < self.cells@.len() && self.cells@[i as int] == c,
                None => !self.cells@.contains(c),
            },
    {
        let mut i: usize = 0;
        while i < self.cells.len()
            invariant
                i <= self.cells@.len(),
                forall|j: int| 0 <= j < i ==> self.cells@[j] != c,
            decreases self.cells@.len() - i,
        {
            if self.cells[i].0 == c.0 && self.cells[i].1 == c.1 {
                return Some(i);
            }
            i += 1;
        }
        None
    }

    /// Whether `c` is painted.
    pub fn contains(&self, c: Cell) -> (res: bool)
        ensures
            res == self@.contains(c),
    {
        let r = self.find(c);
        proof {
            if r is Some {
                assert(self.cells@.contains(c));
            }
        }
        r.is_some()
    }

    /// Paints `c`; true when it was not painted before.
    pub fn insert(&mut self, c: Cell) -> (added: bool)
        ensures
            final(self)@ == old(self)@.insert(c),
            added == !old(self)@.contains(c),
    {
        proof {
            use_type_invariant(&*self);
        }
        match self.find(c) {
            Some(_) => {
                proof {
                    assert(self.cells@.to_set().contains(c));
                    assert(self.cells@.to_set().insert(c) =~= self.cells@.to_set());
                }
                false
            },
            None => {
                let ghost before = self.cells@;
                proof {
                    assert(!before.to_set().contains(c));
                    assert(before.push(c).no_duplicates()) by {
                        assert forall|a: int, b: int| 0 <= a < before.len() + 1 && 0 <= b < before.len() + 1 && a != b implies before.push(c)[a] != before.push(c)[b] by {
                            if a == before.len() {
                                assert(before.push(c)[b] == before[b]);
                            } else if b == before.len() {
                                assert(before.push(c)[a] == before[a]);
                            }
                        }
                    }
                }
                let mut cells = Vec::new();
                std::mem::swap(&mut cells, &mut self.cells);
                cells.push(c);
                proof {
                    assert(cells@ == before.push(c));
                    assert(cells@.to_set() =~= before.to_set().insert(c)) by {
                        assert forall|d: Cell| cells@.to_set().contains(d) implies before.to_set().insert(c).contains(d) by {
                            let k = choose|k: int| 0 <= k < cells@.len() && cells@[k] == d;
                            if k < before.len() {
                                assert(before[k] == d);
                            }
                        }
                        assert forall|d: Cell| before.to_set().insert(c).contains(d) implies cells@.to_set().contains(d) by {
                            if d == c {
                                assert(cells@[before.len() as int] == c);
                            } else {
                                let k = choose|k: int| 0 <= k < before.len() && before[k] == d;
                                assert(cells@[k] == d);
                            }
                        }
                    }
                }
                self.cells = cells;
                true
            },
        }
    }

    /// Unpaints `c`; true when it was painted before.
    pub fn remove(&mut self, c: Cell) -> (removed: bool)
        ensures
            final(self)@ == old(self)@.remove(c),
            removed == old(self)@.contains(c),
    {
        proof {
            use_type_invariant(&*self);
        }
        match self.find(c) {
            Some(i) => {
                let ghost before = self.cells@;
                proof {
                    lemma_remove_at(before, i as int);
                    assert(before.to_set().contains(c));
                }
                let mut cells = Vec::new();
                std::mem::swap(&mut cells, &mut self.cells);
                cells.remove(i);
                self.cells = cells;
                true
            },
            None => {
                proof {
                    assert(!self.cells@.to_set().contains(c));
                    assert(self.cells@.to_set().remove(c) =~= self.cells@.to_set());
                }
                false
            },
        }
    }

    /// Unpaints every cell.
    pub fn clear(&mut self)
        ensures
            final(self)@ == Set::<Cell>::empty(),
    {
        self.cells = Vec::new();
        assert(self.cells@.to_set() =~= Set::<Cell>::empty());
    }
}

} // verus!
