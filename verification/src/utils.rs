//! The connection graph: a mapping from output-port names to the set of
//! input-port names each one feeds, with symmetric queries in both
//! directions. An output whose input set becomes empty loses its entry
//! entirely, so the structure never carries empty edges.

use vstd::prelude::*;

verus! {

/// Compare two string slices by their character sequences.
pub(crate) fn str_eq(a: &str, b: &str) -> (r: bool)
    ensures
        r == (a@ == b@),
{
    a.to_owned() == b.to_owned()
}

/// Graph mutation and query interface shared by both graph owners (the
/// transport-level desired wiring and the mixer-bus wiring).
pub trait Connections: Sized {
    /// Which pairs (output name, input name) are currently wired.
    spec fn connected(&self, o: Seq<char>, i: Seq<char>) -> bool;

    /// Structural invariant of the implementation.
    spec fn inv(&self) -> bool;

    /// Wire (`of == true`) or unwire (`of == false`) one pair. Idempotent in
    /// both directions: repeating an operation changes nothing further.
    fn connect(&mut self, of: bool, oname: &str, iname: &str)
        requires
            old(self).inv(),
        ensures
            final(self).inv(),
            forall|o2: Seq<char>, i2: Seq<char>|
                #[trigger] final(self).connected(o2, i2) == if o2 == oname@ && i2 == iname@ {
                    of
                } else {
                    old(self).connected(o2, i2)
                },
    ;

    fn is_connected(&self, oname: &str, iname: &str) -> (r: bool)
        requires
            self.inv(),
        ensures
            r == self.connected(oname@, iname@),
    ;
}

/// Desired wiring between named ports, keyed by output name. Insertion order
/// of outputs and of the inputs inside one entry is kept but carries no
/// meaning.
pub struct ConnectionGraph {
    entries: Vec<(String, Vec<String>)>,
}

impl ConnectionGraph {
    /// Internal shape: output names unique, no entry with an empty input
    /// list, input names unique within one entry.
    pub closed spec fn wf(&self) -> bool {
        &&& forall|j: int, k: int|
            0 <= j < k < self.entries@.len() ==> (#[trigger] self.entries@[j].0@)
                != (#[trigger] self.entries@[k].0@)
        &&& forall|j: int| 0 <= j < self.entries@.len() ==> (#[trigger] self.entries@[j].1@).len() > 0
        &&& forall|j: int, a: int, b: int|
            0 <= j < self.entries@.len() && 0 <= a < b < self.entries@[j].1@.len()
                ==> (#[trigger] self.entries@[j].1@[a]@) != (#[trigger] self.entries@[j].1@[b]@)
    }

    /// The pair (o, i) is wired.
    pub closed spec fn spec_is_connected(&self, o: Seq<char>, i: Seq<char>) -> bool {
        exists|j: int, k: int|
            0 <= j < self.entries@.len() && 0 <= k < self.entries@[j].1@.len()
                && (#[trigger] self.entries@[j].0@) == o && (#[trigger] self.entries@[j].1@[k]@)
                == i
    }

    /// The graph holds an entry for output o.
    pub closed spec fn spec_has_output(&self, o: Seq<char>) -> bool {
        exists|j: int| 0 <= j < self.entries@.len() && (#[trigger] self.entries@[j].0@) == o
    }

    /// The wired pairs as one set.
    pub open spec fn spec_edges(&self) -> Set<(Seq<char>, Seq<char>)> {
        Set::new(|e: (Seq<char>, Seq<char>)| self.spec_is_connected(e.0, e.1))
    }

    pub fn new() -> (r: ConnectionGraph)
        ensures
            r.wf(),
            forall|o: Seq<char>, i: Seq<char>| !r.spec_is_connected(o, i),
            forall|o: Seq<char>| !r.spec_has_output(o),
    {
        ConnectionGraph { entries: Vec::new() }
    }

    /// An output keeps an entry exactly as long as something is wired to it:
    /// the graph never shows an output with zero inputs.
    pub proof fn lemma_no_empty_outputs(&self, o: Seq<char>)
        requires
            self.wf(),
        ensures
            self.spec_has_output(o) <==> exists|i: Seq<char>| self.spec_is_connected(o, i),
    {
        if self.spec_has_output(o) {
            let j = choose|j: int|
                0 <= j < self.entries@.len() && (#[trigger] self.entries@[j].0@) == o;
            assert(self.entries@[j].1@.len() > 0);
            let i = self.entries@[j].1@[0]@;
            assert(self.spec_is_connected(o, i));
        }
        if exists|i: Seq<char>| self.spec_is_connected(o, i) {
            let i = choose|i: Seq<char>| self.spec_is_connected(o, i);
            let (j, k) = choose|j: int, k: int|
                0 <= j < self.entries@.len() && 0 <= k < self.entries@[j].1@.len()
                    && (#[trigger] self.entries@[j].0@) == o && (#[trigger] self.entries@[j].1@[k]@)
                    == i;
            assert(self.spec_has_output(o));
        }
    }

    /// Index of the entry for `oname`, if one exists.
    fn find_entry(&self, oname: &str) -> (r: Option<usize>)
        ensures
            match r {
                Some(j) => j < self.entries@.len() && self.entries@[j as int].0@ == oname@,
                None => !self.spec_has_output(oname@),
            },
    {
        let n = self.entries.len();
        for j in 0..n
            invariant
                n == self.entries@.len(),
                forall|m: int| 0 <= m < j ==> (#[trigger] self.entries@[m].0@) != oname@,
        {
            if str_eq(self.entries[j].0.as_str(), oname) {
                return Some(j);
            }
        }
        None
    }

    /// Index of `iname` in one input list, if present.
    fn find_input(inputs: &Vec<String>, iname: &str) -> (r: Option<usize>)
        ensures
            match r {
                Some(k) => k < inputs@.len() && inputs@[k as int]@ == iname@,
                None => forall|k: int| 0 <= k < inputs@.len() ==> (#[trigger] inputs@[k]@)
                    != iname@,
            },
    {
        let n = inputs.len();
        for k in 0..n
            invariant
                n == inputs@.len(),
                forall|m: int| 0 <= m < k ==> (#[trigger] inputs@[m]@) != iname@,
        {
            if str_eq(inputs[k].as_str(), iname) {
                return Some(k);
            }
        }
        None
    }

    /// The input names wired to output `oname`, without duplicates.
    pub fn inputs_of(&self, oname: &str) -> (r: Vec<String>)
        requires
            self.wf(),
        ensures
            self.lists_inputs_of(oname@, r@),
    {
        let mut r: Vec<String> = Vec::new();
        match self.find_entry(oname) {
            Some(j) => {
                let n = self.entries[j].1.len();
                for k in 0..n
                    invariant
                        j < self.entries@.len(),
                        n == self.entries@[j as int].1@.len(),
                        self.entries@[j as int].0@ == oname@,
                        self.wf(),
                        r@.len() == k,
                        forall|m: int| 0 <= m < k ==> (#[trigger] r@[m]@)
                            == self.entries@[j as int].1@[m]@,
                {
                    r.push(self.entries[j].1[k].clone());
                }
                proof {
                    assert forall|k: int| 0 <= k < r@.len() implies self.spec_is_connected(
                        oname@,
                        (#[trigger] r@[k]@),
                    ) by {
                        assert(self.entries@[j as int].1@[k]@ == r@[k]@);
                    }
                    assert forall|i: Seq<char>| self.spec_is_connected(oname@, i) implies exists|
                        k: int,
                    | 0 <= k < r@.len() && (#[trigger] r@[k]@) == i by {
                        let (j2, k2) = choose|j2: int, k2: int|
                            0 <= j2 < self.entries@.len() && 0 <= k2 < self.entries@[j2].1@.len()
                                && (#[trigger] self.entries@[j2].0@) == oname@ && (
                            #[trigger] self.entries@[j2].1@[k2]@) == i;
                        assert(j2 == j as int);
                        assert(r@[k2]@ == i);
                    }
                }
                r
            },
            None => {
                proof {
                    self.lemma_no_empty_outputs(oname@);
                }
                r
            },
        }
    }

    /// `cons` lists exactly the inputs wired to output `o`, without
    /// duplicates.
    pub open spec fn lists_inputs_of(&self, o: Seq<char>, cons: Seq<String>) -> bool {
        &&& forall|k: int| 0 <= k < cons.len() ==> self.spec_is_connected(
            o,
            (#[trigger] cons[k]@),
        )
        &&& forall|i: Seq<char>| #[trigger] self.spec_is_connected(o, i) ==> exists|k: int|
            0 <= k < cons.len() && (#[trigger] cons[k]@) == i
        &&& forall|a: int, b: int| 0 <= a < b < cons.len() ==> (#[trigger] cons[a]@) != (
        #[trigger] cons[b]@)
    }

    /// `outs` lists exactly the outputs that input `i` is wired to, without
    /// duplicates.
    pub open spec fn lists_outputs_of(&self, i: Seq<char>, outs: Seq<String>) -> bool {
        &&& forall|k: int| 0 <= k < outs.len() ==> self.spec_is_connected(
            (#[trigger] outs[k]@),
            i,
        )
        &&& forall|o: Seq<char>| #[trigger] self.spec_is_connected(o, i) ==> exists|k: int|
            0 <= k < outs.len() && (#[trigger] outs[k]@) == o
        &&& forall|a: int, b: int| 0 <= a < b < outs.len() ==> (#[trigger] outs[a]@) != (
        #[trigger] outs[b]@)
    }

    /// `pairs` lists every wired pair.
    pub open spec fn lists_edges(&self, pairs: Seq<(String, String)>) -> bool {
        &&& forall|k: int| 0 <= k < pairs.len() ==> self.spec_is_connected(
            (#[trigger] pairs[k]).0@,
            pairs[k].1@,
        )
        &&& forall|o: Seq<char>, i: Seq<char>| #[trigger] self.spec_is_connected(o, i)
            ==> exists|k: int|
            0 <= k < pairs.len() && (#[trigger] pairs[k]).0@ == o && pairs[k].1@ == i
    }

    /// Some element of `inputs` reads `i`.
    pub open spec fn has_input(inputs: Seq<String>, i: Seq<char>) -> bool {
        exists|k: int| 0 <= k < inputs.len() && (#[trigger] inputs[k])@ == i
    }

    /// The outputs among the first `j` entries whose input set holds `i`, in
    /// entry order.
    spec fn outs_upto(entries: Seq<(String, Vec<String>)>, j: int, i: Seq<char>) -> Seq<Seq<char>>
        decreases j,
    {
        if j <= 0 {
            Seq::empty()
        } else if Self::has_input(entries[j - 1].1@, i) {
            Self::outs_upto(entries, j - 1, i).push(entries[j - 1].0@)
        } else {
            Self::outs_upto(entries, j - 1, i)
        }
    }

    #[verifier::spinoff_prover]
    proof fn lemma_outs_upto_sound(entries: Seq<(String, Vec<String>)>, j: int, i: Seq<char>)
        requires
            0 <= j <= entries.len(),
        ensures
            forall|m: int| 0 <= m < Self::outs_upto(entries, j, i).len() ==> exists|j2: int|
                0 <= j2 < j && (#[trigger] Self::outs_upto(entries, j, i)[m]) == entries[j2].0@
                    && Self::has_input(entries[j2].1@, i),
        decreases j,
    {
        if j > 0 {
            Self::lemma_outs_upto_sound(entries, j - 1, i);
            let prev = Self::outs_upto(entries, j - 1, i);
            let cur = Self::outs_upto(entries, j, i);
            assert forall|m: int| 0 <= m < cur.len() implies exists|j2: int|
                0 <= j2 < j && (#[trigger] cur[m]) == entries[j2].0@ && Self::has_input(
                    entries[j2].1@,
                    i,
                ) by {
                if m < prev.len() {
                    let j2 = choose|j2: int|
                        0 <= j2 < j - 1 && (#[trigger] prev[m]) == entries[j2].0@
                            && Self::has_input(entries[j2].1@, i);
                    assert(cur[m] == prev[m]);
                    assert(0 <= j2 < j && cur[m] == entries[j2].0@ && Self::has_input(
                        entries[j2].1@,
                        i,
                    ));
                } else {
                    assert(Self::has_input(entries[j - 1].1@, i));
                    assert(0 <= j - 1 < j && cur[m] == entries[j - 1].0@ && Self::has_input(
                        entries[j - 1].1@,
                        i,
                    ));
                }
            }
        }
    }

    #[verifier::spinoff_prover]
    proof fn lemma_outs_upto_complete(
        entries: Seq<(String, Vec<String>)>,
        j: int,
        i: Seq<char>,
        j2: int,
    )
        requires
            0 <= j2 < j <= entries.len(),
            Self::has_input(entries[j2].1@, i),
        ensures
            Self::outs_upto(entries, j, i).contains(entries[j2].0@),
        decreases j,
    {
        let prev = Self::outs_upto(entries, j - 1, i);
        let cur = Self::outs_upto(entries, j, i);
        if j2 == j - 1 {
            assert(cur[prev.len() as int] == entries[j2].0@);
        } else {
            Self::lemma_outs_upto_complete(entries, j - 1, i, j2);
            let m = choose|m: int| 0 <= m < prev.len() && (#[trigger] prev[m]) == entries[j2].0@;
            assert(cur[m] == entries[j2].0@);
        }
    }

    #[verifier::spinoff_prover]
    proof fn lemma_outs_upto_distinct(entries: Seq<(String, Vec<String>)>, j: int, i: Seq<char>)
        requires
            0 <= j <= entries.len(),
            forall|a: int, b: int| 0 <= a < b < entries.len() ==> (#[trigger] entries[a].0@) != (
            #[trigger] entries[b].0@),
        ensures
            forall|a: int, b: int|
                0 <= a < b < Self::outs_upto(entries, j, i).len() ==> (
                #[trigger] Self::outs_upto(entries, j, i)[a]) != (
                #[trigger] Self::outs_upto(entries, j, i)[b]),
        decreases j,
    {
        if j > 0 {
            Self::lemma_outs_upto_distinct(entries, j - 1, i);
            Self::lemma_outs_upto_sound(entries, j - 1, i);
            let prev = Self::outs_upto(entries, j - 1, i);
            let cur = Self::outs_upto(entries, j, i);
            assert forall|a: int, b: int| 0 <= a < b < cur.len() implies (#[trigger] cur[a]) != (
            #[trigger] cur[b]) by {
                if b < prev.len() {
                    assert(cur[a] == prev[a] && cur[b] == prev[b]);
                } else if b == prev.len() && Self::has_input(entries[j - 1].1@, i) {
                    let j2 = choose|j2: int|
                        0 <= j2 < j - 1 && (#[trigger] prev[a]) == entries[j2].0@
                            && Self::has_input(entries[j2].1@, i);
                    assert(cur[a] == entries[j2].0@ && cur[b] == entries[j - 1].0@);
                    assert(entries[j2].0@ != entries[j - 1].0@);
                }
            }
        }
    }

    /// The output names to which input `iname` is wired, without duplicates.
    #[verifier::spinoff_prover]
    pub fn outputs_of(&self, iname: &str) -> (r: Vec<String>)
        requires
            self.wf(),
        ensures
            self.lists_outputs_of(iname@, r@),
    {
        let mut r: Vec<String> = Vec::new();
        let n = self.entries.len();
        let ghost iv = iname@;
        for j in 0..n
            invariant
                n == self.entries@.len(),
                self.wf(),
                iv == iname@,
                r@.len() == Self::outs_upto(self.entries@, j as int, iv).len(),
                forall|m: int| 0 <= m < r@.len() ==> (#[trigger] r@[m]@) == Self::outs_upto(
                    self.entries@,
                    j as int,
                    iv,
                )[m],
        {
            let hit = Self::find_input(&self.entries[j].1, iname);
            let ghost old_r = r@;
            let ghost jj = j as int;
            match hit {
                Some(k) => {
                    r.push(self.entries[j].0.clone());
                    proof {
                        assert(Self::has_input(self.entries@[jj].1@, iv)) by {
                            assert(self.entries@[jj].1@[k as int]@ == iv);
                        }
                        assert(Self::outs_upto(self.entries@, jj + 1, iv) == Self::outs_upto(
                            self.entries@,
                            jj,
                            iv,
                        ).push(self.entries@[jj].0@));
                        assert(r@[old_r.len() as int]@ == self.entries@[jj].0@);
                    }
                },
                None => {
                    proof {
                        assert(!Self::has_input(self.entries@[jj].1@, iv)) by {
                            if Self::has_input(self.entries@[jj].1@, iv) {
                                let k2 = choose|k2: int|
                                    0 <= k2 < self.entries@[jj].1@.len() && (
                                    #[trigger] self.entries@[jj].1@[k2])@ == iv;
                                assert(false);
                            }
                        }
                        assert(Self::outs_upto(self.entries@, jj + 1, iv) == Self::outs_upto(
                            self.entries@,
                            jj,
                            iv,
                        ));
                    }
                },
            }
        }
        proof {
            let entries = self.entries@;
            let nn = entries.len() as int;
            let outs = Self::outs_upto(entries, nn, iv);
            Self::lemma_outs_upto_sound(entries, nn, iv);
            Self::lemma_outs_upto_complete_all(entries, nn, iv);
            Self::lemma_outs_upto_distinct(entries, nn, iv);
            assert forall|k: int| 0 <= k < r@.len() implies self.spec_is_connected(
                (#[trigger] r@[k]@),
                iv,
            ) by {
                let j2 = choose|j2: int|
                    0 <= j2 < nn && (#[trigger] outs[k]) == entries[j2].0@ && Self::has_input(
                        entries[j2].1@,
                        iv,
                    );
                let k2 = choose|k2: int|
                    0 <= k2 < entries[j2].1@.len() && (#[trigger] entries[j2].1@[k2])@ == iv;
                assert(self.spec_is_connected(r@[k]@, iv)) by {
                    assert(self.entries@[j2].0@ == r@[k]@ && self.entries@[j2].1@[k2]@ == iv);
                }
            }
            assert forall|o: Seq<char>| self.spec_is_connected(o, iv) implies exists|k: int|
                0 <= k < r@.len() && (#[trigger] r@[k]@) == o by {
                let (j2, k2) = choose|j2: int, k2: int|
                    0 <= j2 < entries.len() && 0 <= k2 < entries[j2].1@.len() && (
                    #[trigger] self.entries@[j2].0@) == o && (#[trigger] self.entries@[j2].1@[k2]@)
                        == iv;
                assert(Self::has_input(entries[j2].1@, iv)) by {
                    assert(entries[j2].1@[k2]@ == iv);
                }
                assert(outs.contains(entries[j2].0@));
                let m = choose|m: int| 0 <= m < outs.len() && (#[trigger] outs[m])
                    == entries[j2].0@;
                assert(r@[m]@ == o);
            }
        }
        r
    }

    /// All outputs carrying `i` appear in the enumeration.
    #[verifier::spinoff_prover]
    proof fn lemma_outs_upto_complete_all(
        entries: Seq<(String, Vec<String>)>,
        j: int,
        i: Seq<char>,
    )
        requires
            0 <= j <= entries.len(),
        ensures
            forall|j2: int|
                0 <= j2 < j && Self::has_input((#[trigger] entries[j2].1@), i)
                    ==> Self::outs_upto(entries, j, i).contains(entries[j2].0@),
    {
        assert forall|j2: int|
            0 <= j2 < j && Self::has_input((#[trigger] entries[j2].1@), i) implies Self::outs_upto(
            entries,
            j,
            i,
        ).contains(entries[j2].0@) by {
            Self::lemma_outs_upto_complete(entries, j, i, j2);
        }
    }

    /// The wired pairs of one entry, in input order.
    spec fn entry_pairs(e: (String, Vec<String>)) -> Seq<(Seq<char>, Seq<char>)> {
        Seq::new(e.1@.len(), |k: int| (e.0@, e.1@[k]@))
    }

    /// All wired pairs among the first `j` entries, in entry order.
    spec fn pairs_upto(entries: Seq<(String, Vec<String>)>, j: int) -> Seq<
        (Seq<char>, Seq<char>),
    >
        decreases j,
    {
        if j <= 0 {
            Seq::empty()
        } else {
            Self::pairs_upto(entries, j - 1) + Self::entry_pairs(entries[j - 1])
        }
    }

    /// `p` is one of the wired pairs among the first `j` entries.
    spec fn pair_origin(entries: Seq<(String, Vec<String>)>, j: int, p: (Seq<char>, Seq<char>)) -> bool {
        exists|j2: int, k2: int|
            0 <= j2 < j && 0 <= k2 < entries[j2].1@.len() && p == (
                (#[trigger] entries[j2].0@),
                (#[trigger] entries[j2].1@[k2]@),
            )
    }

    #[verifier::spinoff_prover]
    proof fn lemma_pairs_upto_sound(entries: Seq<(String, Vec<String>)>, j: int)
        requires
            0 <= j <= entries.len(),
        ensures
            forall|m: int| 0 <= m < Self::pairs_upto(entries, j).len() ==> Self::pair_origin(
                entries,
                j,
                (#[trigger] Self::pairs_upto(entries, j)[m]),
            ),
        decreases j,
    {
        if j > 0 {
            Self::lemma_pairs_upto_sound(entries, j - 1);
            let prev = Self::pairs_upto(entries, j - 1);
            let cur = Self::pairs_upto(entries, j);
            let ep = Self::entry_pairs(entries[j - 1]);
            assert forall|m: int| 0 <= m < Self::pairs_upto(entries, j).len() implies Self::pair_origin(
                entries,
                j,
                (#[trigger] Self::pairs_upto(entries, j)[m]),
            ) by {
                if m < prev.len() {
                    assert(Self::pair_origin(entries, j - 1, prev[m]));
                    let (j2, k2) = choose|j2: int, k2: int|
                        0 <= j2 < j - 1 && 0 <= k2 < entries[j2].1@.len() && prev[m] == (
                            (#[trigger] entries[j2].0@),
                            (#[trigger] entries[j2].1@[k2]@),
                        );
                    assert(cur[m] == prev[m]);
                    assert(0 <= j2 < j && 0 <= k2 < entries[j2].1@.len() && cur[m] == (
                        entries[j2].0@,
                        entries[j2].1@[k2]@,
                    ));
                } else {
                    let k2 = m - prev.len();
                    assert(cur[m] == ep[k2]);
                    assert(0 <= j - 1 < j && 0 <= k2 < entries[j - 1].1@.len() && cur[m] == (
                        entries[j - 1].0@,
                        entries[j - 1].1@[k2]@,
                    ));
                }
            }
        } else {
            assert(Self::pairs_upto(entries, j).len() == 0);
        }
    }

    #[verifier::spinoff_prover]
    proof fn lemma_pairs_upto_complete(
        entries: Seq<(String, Vec<String>)>,
        j: int,
        j2: int,
        k2: int,
    )
        requires
            0 <= j2 < j <= entries.len(),
            0 <= k2 < entries[j2].1@.len(),
        ensures
            Self::pairs_upto(entries, j).contains((entries[j2].0@, entries[j2].1@[k2]@)),
        decreases j,
    {
        let prev = Self::pairs_upto(entries, j - 1);
        let cur = Self::pairs_upto(entries, j);
        if j2 == j - 1 {
            assert(cur[prev.len() + k2] == (entries[j2].0@, entries[j2].1@[k2]@));
        } else {
            Self::lemma_pairs_upto_complete(entries, j - 1, j2, k2);
            let m = choose|m: int|
                0 <= m < prev.len() && (#[trigger] prev[m]) == (
                    entries[j2].0@,
                    entries[j2].1@[k2]@,
                );
            assert(cur[m] == (entries[j2].0@, entries[j2].1@[k2]@));
        }
    }

    /// Every wired pair, one element per edge.
    #[verifier::spinoff_prover]
    pub fn edge_list(&self) -> (r: Vec<(String, String)>)
        requires
            self.wf(),
        ensures
            self.lists_edges(r@),
    {
        let mut r: Vec<(String, String)> = Vec::new();
        let n = self.entries.len();
        for j in 0..n
            invariant
                n == self.entries@.len(),
                self.wf(),
                r@.len() == Self::pairs_upto(self.entries@, j as int).len(),
                forall|m: int| 0 <= m < r@.len() ==> ((#[trigger] r@[m]).0@, r@[m].1@)
                    == Self::pairs_upto(self.entries@, j as int)[m],
        {
            let ghost jj = j as int;
            let ghost prev = Self::pairs_upto(self.entries@, jj);
            let inputs_len = self.entries[j].1.len();
            for k in 0..inputs_len
                invariant
                    n == self.entries@.len(),
                    j < n,
                    jj == j as int,
                    inputs_len == self.entries@[jj].1@.len(),
                    self.wf(),
                    prev == Self::pairs_upto(self.entries@, jj),
                    r@.len() == prev.len() + k,
                    forall|m: int| 0 <= m < prev.len() ==> ((#[trigger] r@[m]).0@, r@[m].1@)
                        == prev[m],
                    forall|k2: int| 0 <= k2 < k ==> ((#[trigger] r@[prev.len() + k2]).0@, r@[prev.len()
                        + k2].1@) == (self.entries@[jj].0@, self.entries@[jj].1@[k2]@),
            {
                let o = self.entries[j].0.clone();
                let i = self.entries[j].1[k].clone();
                r.push((o, i));
            }
            proof {
                let cur = Self::pairs_upto(self.entries@, jj + 1);
                let ep = Self::entry_pairs(self.entries@[jj]);
                assert(cur == prev + ep);
                assert(r@.len() == cur.len());
                assert forall|m: int| 0 <= m < r@.len() implies ((#[trigger] r@[m]).0@, r@[m].1@)
                    == cur[m] by {
                    if m < prev.len() {
                        assert(cur[m] == prev[m]);
                    } else {
                        let k2 = m - prev.len();
                        assert(cur[m] == ep[k2]);
                        assert(((r@[prev.len() + k2]).0@, r@[prev.len() + k2].1@) == (
                            self.entries@[jj].0@,
                            self.entries@[jj].1@[k2]@,
                        ));
                        assert(prev.len() + k2 == m);
                    }
                }
            }
        }
        proof {
            let entries = self.entries@;
            let nn = entries.len() as int;
            let pairs = Self::pairs_upto(entries, nn);
            Self::lemma_pairs_upto_sound(entries, nn);
            assert forall|k: int| 0 <= k < r@.len() implies self.spec_is_connected(
                (#[trigger] r@[k]).0@,
                r@[k].1@,
            ) by {
                assert(Self::pair_origin(entries, nn, pairs[k]));
                let (j2, k2) = choose|j2: int, k2: int|
                    0 <= j2 < nn && 0 <= k2 < entries[j2].1@.len() && pairs[k] == (
                        (#[trigger] entries[j2].0@),
                        (#[trigger] entries[j2].1@[k2]@),
                    );
                assert(self.spec_is_connected(r@[k].0@, r@[k].1@)) by {
                    assert(self.entries@[j2].0@ == r@[k].0@ && self.entries@[j2].1@[k2]@
                        == r@[k].1@);
                }
            }
            assert forall|o: Seq<char>, i: Seq<char>| self.spec_is_connected(o, i) implies exists|
                k: int,
            | 0 <= k < r@.len() && (#[trigger] r@[k]).0@ == o && r@[k].1@ == i by {
                let (j2, k2) = choose|j2: int, k2: int|
                    0 <= j2 < entries.len() && 0 <= k2 < entries[j2].1@.len() && (
                    #[trigger] self.entries@[j2].0@) == o && (#[trigger] self.entries@[j2].1@[k2]@)
                        == i;
                Self::lemma_pairs_upto_complete(entries, nn, j2, k2);
                let m = choose|m: int| 0 <= m < pairs.len() && (#[trigger] pairs[m]) == (
                    entries[j2].0@,
                    entries[j2].1@[k2]@,
                );
                assert(r@[m].0@ == o && r@[m].1@ == i);
            }
        }
        r
    }

    #[verifier::spinoff_prover]
    fn do_connect(&mut self, oname: &str, iname: &str)
        requires
            old(self).wf(),
        ensures
            final(self).wf(),
            forall|o2: Seq<char>, i2: Seq<char>|
                #[trigger] final(self).spec_is_connected(o2, i2) == ((o2 == oname@ && i2 == iname@)
                    || old(self).spec_is_connected(o2, i2)),
            forall|o2: Seq<char>| #[trigger] final(self).spec_has_output(o2) == (o2 == oname@
                || old(self).spec_has_output(o2)),
    {
        match self.find_entry(oname) {
            Some(j) => {
                match Self::find_input(&self.entries[j].1, iname) {
                    Some(k) => {
                        proof {
                            assert(self.entries@[j as int].1@[k as int]@ == iname@);
                            assert(self.spec_is_connected(oname@, iname@));
                        }
                    },
                    None => {
                        let ghost old_entries = self.entries@;
                        let pushed = iname.to_owned();
                        let ghost pushed_g = pushed;
                        self.entries[j].1.push(pushed);
                        proof {
                            let jj = j as int;
                            let new_entries = self.entries@;
                            assert(new_entries[jj].1@ == old_entries[jj].1@.push(pushed_g));
                            assert(forall|j2: int|
                                0 <= j2 < new_entries.len() && j2 != jj ==> new_entries[j2]
                                    == old_entries[j2]);
                            assert(new_entries[jj].0 == old_entries[jj].0);
                            assert forall|o2: Seq<char>, i2: Seq<char>|
                                #[trigger] self.spec_is_connected(o2, i2) == ((o2 == oname@ && i2
                                    == iname@) || old(self).spec_is_connected(o2, i2)) by {
                                if self.spec_is_connected(o2, i2) {
                                    let (j2, k2) = choose|j2: int, k2: int|
                                        0 <= j2 < new_entries.len() && 0 <= k2
                                            < new_entries[j2].1@.len() && (
                                        #[trigger] new_entries[j2].0@) == o2 && (
                                        #[trigger] new_entries[j2].1@[k2]@) == i2;
                                    if j2 == jj && k2 == old_entries[jj].1@.len() {
                                        assert(o2 == oname@ && i2 == iname@);
                                    } else {
                                        assert(0 <= j2 < old_entries.len() && 0 <= k2
                                            < old_entries[j2].1@.len() && old_entries[j2].0@ == o2
                                            && old_entries[j2].1@[k2]@ == i2);
                                        assert(old(self).spec_is_connected(o2, i2));
                                    }
                                }
                                if o2 == oname@ && i2 == iname@ {
                                    assert(new_entries[jj].0@ == o2);
                                    assert(new_entries[jj].1@[old_entries[jj].1@.len() as int]@
                                        == i2);
                                    assert(self.spec_is_connected(o2, i2));
                                }
                                if old(self).spec_is_connected(o2, i2) {
                                    let (j2, k2) = choose|j2: int, k2: int|
                                        0 <= j2 < old_entries.len() && 0 <= k2
                                            < old_entries[j2].1@.len() && (
                                        #[trigger] old_entries[j2].0@) == o2 && (
                                        #[trigger] old_entries[j2].1@[k2]@) == i2;
                                    assert(new_entries[j2].0@ == o2);
                                    assert(new_entries[j2].1@[k2]@ == i2);
                                    assert(self.spec_is_connected(o2, i2));
                                }
                            }
                            assert forall|o2: Seq<char>|
                                #[trigger] self.spec_has_output(o2) == (o2 == oname@ || old(
                                    self,
                                ).spec_has_output(o2)) by {
                                if self.spec_has_output(o2) {
                                    let j2 = choose|j2: int|
                                        0 <= j2 < new_entries.len() && (
                                        #[trigger] new_entries[j2].0@) == o2;
                                    assert(old_entries[j2].0@ == o2);
                                    assert(old(self).spec_has_output(o2));
                                }
                                if old(self).spec_has_output(o2) {
                                    let j2 = choose|j2: int|
                                        0 <= j2 < old_entries.len() && (
                                        #[trigger] old_entries[j2].0@) == o2;
                                    assert(new_entries[j2].0@ == o2);
                                }
                            }
                            assert(final(self).wf()) by {
                                assert forall|j2: int, k2: int|
                                    0 <= j2 < k2 < new_entries.len() implies (
                                #[trigger] new_entries[j2].0@) != (
                                #[trigger] new_entries[k2].0@) by {
                                    assert(old_entries[j2].0@ != old_entries[k2].0@);
                                }
                                assert forall|j2: int| 0 <= j2 < new_entries.len() implies (
                                #[trigger] new_entries[j2].1@).len() > 0 by {
                                    if j2 != jj {
                                        assert(old_entries[j2].1@.len() > 0);
                                    }
                                }
                                assert forall|j2: int, a: int, b: int|
                                    0 <= j2 < new_entries.len() && 0 <= a < b
                                        < new_entries[j2].1@.len() implies (
                                #[trigger] new_entries[j2].1@[a]@) != (
                                #[trigger] new_entries[j2].1@[b]@) by {
                                    if j2 == jj {
                                        if b == old_entries[jj].1@.len() {
                                            assert(new_entries[jj].1@[a]
                                                == old_entries[jj].1@[a]);
                                            assert(old_entries[jj].1@[a]@ != iname@);
                                            assert(new_entries[jj].1@[b]@ == iname@);
                                        } else {
                                            assert(old_entries[jj].1@[a]@
                                                != old_entries[jj].1@[b]@);
                                        }
                                    } else {
                                        assert(old_entries[j2].1@[a]@ != old_entries[j2].1@[b]@);
                                    }
                                }
                            }
                        }
                    },
                }
            },
            None => {
                let ghost old_entries = self.entries@;
                let mut inputs: Vec<String> = Vec::new();
                inputs.push(iname.to_owned());
                self.entries.push((oname.to_owned(), inputs));
                proof {
                    let new_entries = self.entries@;
                    let jj = old_entries.len() as int;
                    assert(new_entries[jj].0@ == oname@);
                    assert(new_entries[jj].1@[0]@ == iname@);
                    assert forall|o2: Seq<char>, i2: Seq<char>|
                        #[trigger] self.spec_is_connected(o2, i2) == ((o2 == oname@ && i2
                            == iname@) || old(self).spec_is_connected(o2, i2)) by {
                        if self.spec_is_connected(o2, i2) {
                            let (j2, k2) = choose|j2: int, k2: int|
                                0 <= j2 < new_entries.len() && 0 <= k2 < new_entries[j2].1@.len()
                                    && (#[trigger] new_entries[j2].0@) == o2 && (
                                #[trigger] new_entries[j2].1@[k2]@) == i2;
                            if j2 == jj {
                                assert(o2 == oname@ && i2 == iname@);
                            } else {
                                assert(old_entries[j2].0@ == o2 && old_entries[j2].1@[k2]@ == i2);
                                assert(old(self).spec_is_connected(o2, i2));
                            }
                        }
                        if o2 == oname@ && i2 == iname@ {
                            assert(self.spec_is_connected(o2, i2));
                        }
                        if old(self).spec_is_connected(o2, i2) {
                            let (j2, k2) = choose|j2: int, k2: int|
                                0 <= j2 < old_entries.len() && 0 <= k2 < old_entries[j2].1@.len()
                                    && (#[trigger] old_entries[j2].0@) == o2 && (
                                #[trigger] old_entries[j2].1@[k2]@) == i2;
                            assert(new_entries[j2].0@ == o2);
                            assert(new_entries[j2].1@[k2]@ == i2);
                        }
                    }
                    assert forall|o2: Seq<char>|
                        #[trigger] self.spec_has_output(o2) == (o2 == oname@ || old(
                            self,
                        ).spec_has_output(o2)) by {
                        if self.spec_has_output(o2) {
                            let j2 = choose|j2: int|
                                0 <= j2 < new_entries.len() && (#[trigger] new_entries[j2].0@)
                                    == o2;
                            if j2 == jj {
                            } else {
                                assert(old_entries[j2].0@ == o2);
                            }
                        }
                        if old(self).spec_has_output(o2) {
                            let j2 = choose|j2: int|
                                0 <= j2 < old_entries.len() && (#[trigger] old_entries[j2].0@)
                                    == o2;
                            assert(new_entries[j2].0@ == o2);
                        }
                    }
                    assert(final(self).wf()) by {
                        assert forall|j2: int, k2: int|
                            0 <= j2 < k2 < new_entries.len() implies (
                        #[trigger] new_entries[j2].0@) != (#[trigger] new_entries[k2].0@) by {
                            if k2 == jj {
                                assert(old_entries[j2].0@ != oname@) by {
                                    if old_entries[j2].0@ == oname@ {
                                        assert(old(self).spec_has_output(oname@));
                                    }
                                }
                            }
                        }
                    }
                }
            },
        }
    }

    #[verifier::spinoff_prover]
    fn do_disconnect(&mut self, oname: &str, iname: &str)
        requires
            old(self).wf(),
        ensures
            final(self).wf(),
            forall|o2: Seq<char>, i2: Seq<char>|
                #[trigger] final(self).spec_is_connected(o2, i2) == (!(o2 == oname@ && i2
                    == iname@) && old(self).spec_is_connected(o2, i2)),
    {
        let j_opt = self.find_entry(oname);
        match j_opt {
            Some(j) => {
                let k_opt = Self::find_input(&self.entries[j].1, iname);
                match k_opt {
                    Some(k) => {
                        let ghost old_entries = self.entries@;
                        let ghost jj = j as int;
                        let ghost kk = k as int;
                        self.entries[j].1.remove(k);
                        let now_empty = self.entries[j].1.len() == 0;
                        if now_empty {
                            self.entries.remove(j);
                        }
                        proof {
                            let new_entries = self.entries@;
                            // The entry at jj lost exactly the input at kk.
                            if now_empty {
                                assert(new_entries =~= old_entries.remove(jj));
                            } else {
                                assert(new_entries =~= old_entries.update(
                                    jj,
                                    (old_entries[jj].0, new_entries[jj].1),
                                ));
                                assert(new_entries[jj].1@ =~= old_entries[jj].1@.remove(kk));
                            }
                            assert forall|o2: Seq<char>, i2: Seq<char>|
                                #[trigger] final(self).spec_is_connected(o2, i2) == (!(o2 == oname@
                                    && i2 == iname@) && old(self).spec_is_connected(o2, i2)) by {
                                self.lemma_disconnect_shape(
                                    *old(self),
                                    jj,
                                    kk,
                                    now_empty,
                                    oname@,
                                    iname@,
                                    o2,
                                    i2,
                                );
                            }
                            assert(final(self).wf()) by {
                                self.lemma_disconnect_wf(*old(self), jj, kk, now_empty);
                            }
                        }
                    },
                    None => {
                        proof {
                            let jj = j as int;
                            assert forall|o2: Seq<char>, i2: Seq<char>|
                                #[trigger] self.spec_is_connected(o2, i2) == (!(o2 == oname@ && i2
                                    == iname@) && old(self).spec_is_connected(o2, i2)) by {
                                if self.spec_is_connected(oname@, iname@) {
                                    let (j2, k2) = choose|j2: int, k2: int|
                                        0 <= j2 < self.entries@.len() && 0 <= k2
                                            < self.entries@[j2].1@.len() && (
                                        #[trigger] self.entries@[j2].0@) == oname@ && (
                                        #[trigger] self.entries@[j2].1@[k2]@) == iname@;
                                    assert(j2 == jj);
                                }
                            }
                        }
                    },
                }
            },
            None => {
                proof {
                    self.lemma_no_empty_outputs(oname@);
                    assert forall|o2: Seq<char>, i2: Seq<char>|
                        #[trigger] self.spec_is_connected(o2, i2) == (!(o2 == oname@ && i2
                            == iname@) && old(self).spec_is_connected(o2, i2)) by {
                        if o2 == oname@ && i2 == iname@ && self.spec_is_connected(o2, i2) {
                            assert(exists|i3: Seq<char>| self.spec_is_connected(oname@, i3));
                        }
                    }
                }
            },
        }
    }

    /// Relates connectivity before and after one input is removed from one
    /// entry (with the entry itself removed when it became empty).
    #[verifier::spinoff_prover]
    proof fn lemma_disconnect_shape(
        &self,
        pre: ConnectionGraph,
        jj: int,
        kk: int,
        now_empty: bool,
        oname: Seq<char>,
        iname: Seq<char>,
        o2: Seq<char>,
        i2: Seq<char>,
    )
        requires
            pre.wf(),
            0 <= jj < pre.entries@.len(),
            0 <= kk < pre.entries@[jj].1@.len(),
            pre.entries@[jj].0@ == oname,
            pre.entries@[jj].1@[kk]@ == iname,
            now_empty <==> pre.entries@[jj].1@.len() == 1,
            if now_empty {
                self.entries@ =~= pre.entries@.remove(jj)
            } else {
                self.entries@ =~= pre.entries@.update(
                    jj,
                    (pre.entries@[jj].0, self.entries@[jj].1),
                ) && self.entries@[jj].1@ =~= pre.entries@[jj].1@.remove(kk)
            },
        ensures
            self.spec_is_connected(o2, i2) == (!(o2 == oname && i2 == iname)
                && pre.spec_is_connected(o2, i2)),
    {
        let old_entries = pre.entries@;
        let new_entries = self.entries@;
        if self.spec_is_connected(o2, i2) {
            let (j2, k2) = choose|j2: int, k2: int|
                0 <= j2 < new_entries.len() && 0 <= k2 < new_entries[j2].1@.len() && (
                #[trigger] new_entries[j2].0@) == o2 && (#[trigger] new_entries[j2].1@[k2]@) == i2;
            if now_empty {
                let j3 = if j2 < jj {
                    j2
                } else {
                    j2 + 1
                };
                assert(old_entries[j3].0@ == o2 && old_entries[j3].1@[k2]@ == i2);
                assert(pre.spec_is_connected(o2, i2));
                if o2 == oname && i2 == iname {
                    assert(j3 == jj);
                    assert(false);
                }
            } else {
                if j2 == jj {
                    let k3 = if k2 < kk {
                        k2
                    } else {
                        k2 + 1
                    };
                    assert(old_entries[jj].1@[k3]@ == i2);
                    assert(pre.spec_is_connected(o2, i2));
                    if o2 == oname && i2 == iname {
                        assert(old_entries[jj].1@[k3]@ == old_entries[jj].1@[kk]@);
                        assert(k3 == kk);
                        assert(false);
                    }
                } else {
                    assert(old_entries[j2].0@ == o2 && old_entries[j2].1@[k2]@ == i2);
                    assert(pre.spec_is_connected(o2, i2));
                    if o2 == oname && i2 == iname {
                        assert(old_entries[j2].0@ == old_entries[jj].0@);
                        assert(j2 == jj);
                        assert(false);
                    }
                }
            }
        }
        if !(o2 == oname && i2 == iname) && pre.spec_is_connected(o2, i2) {
            let (j2, k2) = choose|j2: int, k2: int|
                0 <= j2 < old_entries.len() && 0 <= k2 < old_entries[j2].1@.len() && (
                #[trigger] old_entries[j2].0@) == o2 && (#[trigger] old_entries[j2].1@[k2]@) == i2;
            if now_empty {
                if j2 == jj {
                    assert(k2 == kk) by {
                        assert(old_entries[jj].1@.len() == 1);
                    }
                    assert(o2 == oname && i2 == iname);
                    assert(false);
                } else {
                    let j3 = if j2 < jj {
                        j2
                    } else {
                        j2 - 1
                    };
                    assert(new_entries[j3].0@ == o2 && new_entries[j3].1@[k2]@ == i2);
                    assert(self.spec_is_connected(o2, i2));
                }
            } else {
                if j2 == jj {
                    if k2 == kk {
                        assert(o2 == oname && i2 == iname);
                        assert(false);
                    } else {
                        let k3 = if k2 < kk {
                            k2
                        } else {
                            k2 - 1
                        };
                        assert(new_entries[jj].1@[k3]@ == i2);
                        assert(new_entries[jj].0@ == o2);
                        assert(self.spec_is_connected(o2, i2));
                    }
                } else {
                    assert(new_entries[j2].0@ == o2 && new_entries[j2].1@[k2]@ == i2);
                    assert(self.spec_is_connected(o2, i2));
                }
            }
        }
    }

    /// Removing one input (and the entry, when it became empty) keeps the
    /// structural invariant.
    #[verifier::spinoff_prover]
    proof fn lemma_disconnect_wf(&self, pre: ConnectionGraph, jj: int, kk: int, now_empty: bool)
        requires
            pre.wf(),
            0 <= jj < pre.entries@.len(),
            0 <= kk < pre.entries@[jj].1@.len(),
            now_empty <==> pre.entries@[jj].1@.len() == 1,
            if now_empty {
                self.entries@ =~= pre.entries@.remove(jj)
            } else {
                self.entries@ =~= pre.entries@.update(
                    jj,
                    (pre.entries@[jj].0, self.entries@[jj].1),
                ) && self.entries@[jj].1@ =~= pre.entries@[jj].1@.remove(kk)
            },
        ensures
            self.wf(),
    {
        let old_entries = pre.entries@;
        let new_entries = self.entries@;
        if now_empty {
            assert forall|j: int, k: int|
                0 <= j < k < new_entries.len() implies (#[trigger] new_entries[j].0@) != (
            #[trigger] new_entries[k].0@) by {
                let j3 = if j < jj {
                    j
                } else {
                    j + 1
                };
                let k3 = if k < jj {
                    k
                } else {
                    k + 1
                };
                assert(old_entries[j3].0@ != old_entries[k3].0@);
            }
            assert forall|j: int| 0 <= j < new_entries.len() implies (
            #[trigger] new_entries[j].1@).len() > 0 by {
                let j3 = if j < jj {
                    j
                } else {
                    j + 1
                };
                assert(old_entries[j3].1@.len() > 0);
            }
            assert forall|j: int, a: int, b: int|
                0 <= j < new_entries.len() && 0 <= a < b < new_entries[j].1@.len() implies (
            #[trigger] new_entries[j].1@[a]@) != (#[trigger] new_entries[j].1@[b]@) by {
                let j3 = if j < jj {
                    j
                } else {
                    j + 1
                };
                assert(old_entries[j3].1@[a]@ != old_entries[j3].1@[b]@);
            }
        } else {
            assert forall|j: int, a: int, b: int|
                0 <= j < new_entries.len() && 0 <= a < b < new_entries[j].1@.len() implies (
            #[trigger] new_entries[j].1@[a]@) != (#[trigger] new_entries[j].1@[b]@) by {
                if j == jj {
                    let a3 = if a < kk {
                        a
                    } else {
                        a + 1
                    };
                    let b3 = if b < kk {
                        b
                    } else {
                        b + 1
                    };
                    assert(old_entries[jj].1@[a3]@ != old_entries[jj].1@[b3]@);
                } else {
                    assert(old_entries[j].1@[a]@ != old_entries[j].1@[b]@);
                }
            }
        }
    }
}

impl Connections for ConnectionGraph {
    open spec fn connected(&self, o: Seq<char>, i: Seq<char>) -> bool {
        self.spec_is_connected(o, i)
    }

    open spec fn inv(&self) -> bool {
        self.wf()
    }

    fn connect(&mut self, of: bool, oname: &str, iname: &str) {
        if of {
            self.do_connect(oname, iname);
        } else {
            self.do_disconnect(oname, iname);
        }
    }

    fn is_connected(&self, oname: &str, iname: &str) -> (r: bool) {
        match self.find_entry(oname) {
            Some(j) => {
                let r = Self::find_input(&self.entries[j].1, iname).is_some();
                proof {
                    let jj = j as int;
                    if r {
                        assert(self.spec_is_connected(oname@, iname@));
                    } else {
                        if self.spec_is_connected(oname@, iname@) {
                            let (j2, k2) = choose|j2: int, k2: int|
                                0 <= j2 < self.entries@.len() && 0 <= k2
                                    < self.entries@[j2].1@.len() && (
                                #[trigger] self.entries@[j2].0@) == oname@ && (
                                #[trigger] self.entries@[j2].1@[k2]@) == iname@;
                            assert(j2 == jj);
                        }
                    }
                }
                r
            },
            None => {
                proof {
                    self.lemma_no_empty_outputs(oname@);
                    if self.spec_is_connected(oname@, iname@) {
                        assert(exists|i3: Seq<char>| self.spec_is_connected(oname@, i3));
                    }
                }
                false
            },
        }
    }
}

/// One abstract graph operation, for stating laws about operation sequences.
pub enum GraphOp {
    Connect(Seq<char>, Seq<char>),
    Disconnect(Seq<char>, Seq<char>),
}

/// The edge set after one operation.
pub open spec fn op_applied(
    edges: Set<(Seq<char>, Seq<char>)>,
    op: GraphOp,
) -> Set<(Seq<char>, Seq<char>)> {
    match op {
        GraphOp::Connect(o, i) => edges.insert((o, i)),
        GraphOp::Disconnect(o, i) => edges.remove((o, i)),
    }
}

/// The edge set after a whole operation sequence.
pub open spec fn ops_applied(
    edges: Set<(Seq<char>, Seq<char>)>,
    ops: Seq<GraphOp>,
) -> Set<(Seq<char>, Seq<char>)>
    decreases ops.len(),
{
    if ops.len() == 0 {
        edges
    } else {
        op_applied(ops_applied(edges, ops.drop_last()), ops.last())
    }
}

/// Whether the pair (o, i) is wired after the sequence: decided by the last
/// operation that touches the pair, or by the initial state if none does.
pub open spec fn net_connected(init: bool, ops: Seq<GraphOp>, o: Seq<char>, i: Seq<char>) -> bool
    decreases ops.len(),
{
    if ops.len() == 0 {
        init
    } else {
        match ops.last() {
            GraphOp::Connect(o2, i2) => if o2 == o && i2 == i {
                true
            } else {
                net_connected(init, ops.drop_last(), o, i)
            },
            GraphOp::Disconnect(o2, i2) => if o2 == o && i2 == i {
                false
            } else {
                net_connected(init, ops.drop_last(), o, i)
            },
        }
    }
}

/// For every sequence of connect/disconnect operations, a pair is wired
/// afterwards exactly when the last operation on that pair was a connect (or
/// it was wired initially and never touched). In particular repeating a
/// connect, or repeating a disconnect, has no further effect.
pub proof fn lemma_graph_op_net(
    init: Set<(Seq<char>, Seq<char>)>,
    ops: Seq<GraphOp>,
    o: Seq<char>,
    i: Seq<char>,
)
    ensures
        ops_applied(init, ops).contains((o, i)) == net_connected(init.contains((o, i)), ops, o, i),
    decreases ops.len(),
{
    if ops.len() > 0 {
        lemma_graph_op_net(init, ops.drop_last(), o, i);
    }
}

/// Repeating the same operation leaves the edge set unchanged: both connect
/// and disconnect are idempotent.
pub proof fn lemma_graph_op_idempotent(edges: Set<(Seq<char>, Seq<char>)>, op: GraphOp)
    ensures
        op_applied(op_applied(edges, op), op) =~= op_applied(edges, op),
{
}

/// The exec-level mutation realises the abstract operation: relating a graph
/// before and after `connect` (as its contract states it), the edge sets
/// stand in the `op_applied` relation.
pub proof fn lemma_connect_models_op(g0: ConnectionGraph, g1: ConnectionGraph, of: bool, o: Seq<char>, i: Seq<char>)
    requires
        forall|o2: Seq<char>, i2: Seq<char>|
            #[trigger] g1.spec_is_connected(o2, i2) == if o2 == o && i2 == i {
                of
            } else {
                g0.spec_is_connected(o2, i2)
            },
    ensures
        g1.spec_edges() =~= op_applied(
            g0.spec_edges(),
            if of {
                GraphOp::Connect(o, i)
            } else {
                GraphOp::Disconnect(o, i)
            },
        ),
{
    let op = if of {
        GraphOp::Connect(o, i)
    } else {
        GraphOp::Disconnect(o, i)
    };
    assert forall|e: (Seq<char>, Seq<char>)| #[trigger] g1.spec_edges().contains(e) implies
        op_applied(g0.spec_edges(), op).contains(e) by {
        assert(g1.spec_is_connected(e.0, e.1));
    }
    assert forall|e: (Seq<char>, Seq<char>)| #[trigger] op_applied(
        g0.spec_edges(),
        op,
    ).contains(e) implies g1.spec_edges().contains(e) by {
        assert(g1.spec_is_connected(e.0, e.1));
    }
}

/// Unwiring the only input of an output removes the output's entry entirely:
/// no listing ever shows an output with an empty input set.
pub proof fn lemma_last_input_removes_output(
    g0: ConnectionGraph,
    g1: ConnectionGraph,
    o: Seq<char>,
    i: Seq<char>,
)
    requires
        g0.wf(),
        g1.wf(),
        forall|o2: Seq<char>, i2: Seq<char>|
            #[trigger] g1.spec_is_connected(o2, i2) == (!(o2 == o && i2 == i)
                && g0.spec_is_connected(o2, i2)),
        forall|i2: Seq<char>| i2 != i ==> !(#[trigger] g0.spec_is_connected(o, i2)),
    ensures
        !g1.spec_has_output(o),
{
    g1.lemma_no_empty_outputs(o);
    if g1.spec_has_output(o) {
        let i2 = choose|i2: Seq<char>| g1.spec_is_connected(o, i2);
        assert(g1.spec_is_connected(o, i2));
        if i2 == i {
            assert(false);
        } else {
            assert(g0.spec_is_connected(o, i2));
            assert(false);
        }
    }
}

} // verus!
