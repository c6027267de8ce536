//! Documents: the rows that a file was read to, and the names of files.
use vstd::prelude::*;
use crate::micro::digits_read_back;
use crate::node::Node;
use crate::scalar::Scalar;
use crate::scene::{distinct, rows_of, Scene};
use crate::text::{digits, digits_spec, string_of};

verus! {

/// Rows that are no drawing, because two of them have one id.
#[derive(Clone, Copy, Debug, PartialEq, Eq, Structural)]
pub struct RepeatedId {
    pub id: u64,
}

/// The name of the `n`-th drawing.
pub open spec fn drawing_name_spec(n: nat) -> Seq<char> {
    "Drawing "@ + digits_spec(n) + ".daysketch"@
}

pub fn drawing_name(n: u64) -> (r: String)
    ensures
        r@ == drawing_name_spec(n as nat),
{
    let mut out = "Drawing ".to_owned();
    out.append(string_of(digits(n).as_slice()).as_str());
    out.append(".daysketch");
    out
}

/// Whether a list of names holds one.
pub open spec fn is_taken(taken: Seq<String>, name: Seq<char>) -> bool {
    exists|i: int| 0 <= i < taken.len() && (#[trigger] taken[i])@ == name
}

/// The first number whose drawing's name is not taken.
pub fn first_free(taken: &Vec<String>) -> (n: u64)
    requires
        taken.len() < usize::MAX,
    ensures
        n >= 1,
        !is_taken(taken@, drawing_name_spec(n as nat)),
        forall|k: u64| 1 <= k < n ==> #[trigger] is_taken(taken@, drawing_name_spec(k as nat)),
{
    let mut n: u64 = 1;
    while holds(taken, &drawing_name(n))
        invariant
            1 <= n,
            n <= taken.len() + 1,
            taken.len() < usize::MAX,
            forall|k: u64| 1 <= k < n ==> #[trigger] is_taken(taken@, drawing_name_spec(k as nat)),
        decreases taken.len() + 1 - n,
    {
        proof {
            names_run_out(taken@, n as nat);
        }
        n += 1;
    }
    n
}

/// Whether a list of names holds one.
fn holds(taken: &Vec<String>, name: &String) -> (r: bool)
    ensures
        r == is_taken(taken@, name@),
{
    let mut i: usize = 0;
    while i < taken.len()
        invariant
            i <= taken.len(),
            forall|j: int| 0 <= j < i ==> (#[trigger] taken@[j])@ != name@,
        decreases taken.len() - i,
    {
        if taken[i] == *name {
            assert(taken@[i as int]@ == name@);
            return true;
        }
        i += 1;
    }
    false
}

/// Two numbers have two names.
proof fn names_differ(a: nat, b: nat)
    requires
        drawing_name_spec(a) == drawing_name_spec(b),
    ensures
        a == b,
{
    reveal_strlit("Drawing ");
    reveal_strlit(".daysketch");
    let (da, db) = (digits_spec(a), digits_spec(b));
    let (na, nb) = (drawing_name_spec(a), drawing_name_spec(b));
    assert(na.len() == 18 + da.len() && nb.len() == 18 + db.len());
    assert forall|i: int| 0 <= i < da.len() implies da[i] == db[i] by {
        assert(na[8 + i] == da[i] && nb[8 + i] == db[i]);
    }
    assert(da =~= db);
    digits_read_back(a);
    digits_read_back(b);
}

/// A list that holds the names of `n` numbers has `n` entries at least.
proof fn names_run_out(taken: Seq<String>, n: nat)
    requires
        n <= u64::MAX,
        forall|k: u64| 1 <= k <= n ==> #[trigger] is_taken(taken, drawing_name_spec(k as nat)),
    ensures
        n <= taken.len(),
{
    let names = Seq::new(n, |i: int| drawing_name_spec((i + 1) as nat));
    let held = Seq::new(taken.len(), |i: int| taken[i]@);
    assert(names.no_duplicates()) by {
        assert forall|i: int, j: int| 0 <= i < n && 0 <= j < n && i != j implies names[i]
            != names[j] by {
            if names[i] == names[j] {
                names_differ((i + 1) as nat, (j + 1) as nat);
            }
        }
    }
    names.unique_seq_to_set();
    assert(names.to_set().subset_of(held.to_set())) by {
        assert forall|x: Seq<char>| names.to_set().contains(x) implies held.to_set().contains(x) by {
            let i = choose|i: int| 0 <= i < names.len() && names[i] == x;
            assert(is_taken(taken, drawing_name_spec((i + 1) as u64 as nat)));
            let j = choose|j: int| 0 <= j < taken.len() && (#[trigger] taken[j])@ == x;
            assert(held[j] == x);
        }
    }
    held.lemma_cardinality_of_set();
    vstd::set_lib::lemma_len_subset(names.to_set(), held.to_set());
}

/// The name that a copy of a document is exported under.
pub fn export_name(name: &str) -> (r: String)
    ensures
        r@ == name@ + ".daysketch"@,
{
    let mut out = name.to_owned();
    out.append(".daysketch");
    out
}

impl<S: Scalar> Scene<S> {
    /// The drawing of rows that were read from a file. A file from before there was a paper
    /// colour opens on white.
    pub fn load(nodes: Vec<Node<S>>, background: Option<String>) -> (r: Result<
        Scene<S>,
        RepeatedId,
    >)
        ensures
            match r {
                Ok(s) => s.wf() && s@.rows == rows_of(nodes@) && s@.background == match background {
                    Some(b) => b@,
                    None => "#FFFFFF"@,
                },
                Err(e) => exists|i: int, j: int|
                    #![trigger nodes@[i], nodes@[j]]
                    0 <= i < j < nodes@.len() && nodes@[i].id == e.id && nodes@[j].id == e.id,
            },
            r is Ok <==> distinct(rows_of(nodes@)),
    {
        let ghost rows = rows_of(nodes@);
        let mut j: usize = 0;
        while j < nodes.len()
            invariant
                j <= nodes.len(),
                rows == rows_of(nodes@),
                forall|a: int, b: int|
                    #![trigger rows[a], rows[b]]
                    0 <= a < b < j ==> rows[a].id != rows[b].id,
            decreases nodes.len() - j,
        {
            let mut i: usize = 0;
            while i < j
                invariant
                    i <= j < nodes.len(),
                    rows == rows_of(nodes@),
                    forall|a: int| 0 <= a < i ==> (#[trigger] rows[a]).id != rows[j as int].id,
                decreases j - i,
            {
                if nodes[i].id == nodes[j].id {
                    let id = nodes[i].id;
                    assert(nodes@[i as int].id == id && nodes@[j as int].id == id);
                    assert(rows[i as int].id == rows[j as int].id);
                    return Err(RepeatedId { id });
                }
                i += 1;
            }
            j += 1;
        }
        let background = match background {
            Some(b) => b,
            None => "#FFFFFF".to_owned(),
        };
        Ok(Scene { nodes, background })
    }

    /// A drawing of the same value.
    pub fn replica(&self) -> (r: Scene<S>)
        ensures
            r@ == self@,
            self.wf() ==> r.wf(),
    {
        let mut nodes: Vec<Node<S>> = Vec::new();
        let mut i: usize = 0;
        while i < self.nodes.len()
            invariant
                i <= self.nodes.len(),
                nodes.len() == i,
                forall|k: int| 0 <= k < i ==> (#[trigger] nodes@[k])@ == self.nodes@[k]@,
            decreases self.nodes.len() - i,
        {
            nodes.push(self.nodes[i].replica());
            i += 1;
        }
        let r = Scene { nodes, background: self.background.clone() };
        assert(r@.rows =~= self@.rows);
        r
    }
}

} // verus!
