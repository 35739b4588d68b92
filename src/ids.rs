//! Generation of fresh instance identifiers and identifier-list utilities.

use vstd::prelude::*;
use crate::model::ids_view;
use crate::store::{disjoint, unique};
use crate::text::{copy_text, decimal, digit_char, push_decimal};

verus! {

/// The identifier generated for counter value `n`.
pub open spec fn gen_id(prefix: Seq<char>, n: nat) -> Seq<char> {
    prefix + decimal(n)
}

/// A deterministic source of fresh identifiers: a fixed prefix followed by
/// the decimal text of a counter.
#[derive(Debug)]
pub struct IdGenerator {
    pub prefix: String,
    pub next: u64,
}

impl IdGenerator {
    /// A generator whose first identifier uses counter value `start`.
    pub fn new(prefix: String, start: u64) -> (r: IdGenerator)
        ensures
            r.prefix@ == prefix@,
            r.next == start,
    {
        IdGenerator { prefix, next: start }
    }

    /// The identifier for counter value `n`, without advancing.
    pub fn id_at(&self, n: u64) -> (r: String)
        ensures
            r@ == gen_id(self.prefix@, n as nat),
    {
        let mut r = copy_text(&self.prefix);
        push_decimal(&mut r, n);
        r
    }

    /// A fresh identifier; the counter advances by one.
    pub fn generate_id(&mut self) -> (r: String)
        requires
            old(self).next < u64::MAX,
        ensures
            r@ == gen_id(old(self).prefix@, old(self).next as nat),
            final(self).next == old(self).next + 1,
            final(self).prefix@ == old(self).prefix@,
    {
        let r = self.id_at(self.next);
        self.next = self.next + 1;
        r
    }
}

proof fn lemma_decimal_len(n: nat)
    ensures
        decimal(n).len() >= 1,
        n >= 10 ==> decimal(n).len() >= 2,
    decreases n,
{
    if n >= 10 {
        lemma_decimal_len(n / 10);
    }
}

proof fn lemma_digit_injective(a: nat, b: nat)
    requires
        a < 10,
        b < 10,
        digit_char(a) == digit_char(b),
    ensures
        a == b,
{
}

/// Distinct counter values give distinct decimal texts.
pub proof fn lemma_decimal_injective(n: nat, m: nat)
    requires
        decimal(n) == decimal(m),
    ensures
        n == m,
    decreases n,
{
    lemma_decimal_len(n);
    lemma_decimal_len(m);
    if n < 10 && m < 10 {
        assert(decimal(n) == seq![digit_char(n)]);
        assert(decimal(m) == seq![digit_char(m)]);
        assert(decimal(n)[0] == digit_char(n));
        assert(decimal(m)[0] == digit_char(m));
        lemma_digit_injective(n, m);
    } else if n >= 10 && m >= 10 {
        let a = decimal(n / 10);
        let b = decimal(m / 10);
        assert(decimal(n) == a.push(digit_char(n % 10)));
        assert(decimal(m) == b.push(digit_char(m % 10)));
        assert(decimal(n).last() == digit_char(n % 10));
        assert(decimal(m).last() == digit_char(m % 10));
        lemma_digit_injective(n % 10, m % 10);
        assert(a =~= decimal(n).drop_last());
        assert(b =~= decimal(m).drop_last());
        lemma_decimal_injective(n / 10, m / 10);
    }
}

/// Distinct counter values give distinct identifiers.
pub proof fn lemma_gen_id_injective(prefix: Seq<char>, n: nat, m: nat)
    requires
        gen_id(prefix, n) == gen_id(prefix, m),
    ensures
        n == m,
{
    let l = prefix.len() as int;
    assert(decimal(n) =~= gen_id(prefix, n).subrange(l, gen_id(prefix, n).len() as int));
    assert(decimal(m) =~= gen_id(prefix, m).subrange(l, gen_id(prefix, m).len() as int));
    lemma_decimal_injective(n, m);
}

/// Position of an identifier that occurs twice in the list, if any.
pub fn find_duplicate(v: &Vec<String>) -> (r: Option<usize>)
    ensures
        match r {
            Some(i) => i < v@.len() && exists|j: int| 0 <= j < v@.len() && j != i && (#[trigger] v@[j])@ == v@[i as int]@,
            None => unique(ids_view(v@)),
        },
{
    let ghost s = ids_view(v@);
    let mut i: usize = 0;
    while i < v.len()
        invariant
            i <= v@.len(),
            s == ids_view(v@),
            forall|a: int, b: int| 0 <= a < i && 0 <= b < s.len() && a != b ==> s[a] != s[b],
        decreases v@.len() - i,
    {
        let mut j: usize = 0;
        while j < v.len()
            invariant
                i < v@.len(),
                j <= v@.len(),
                s == ids_view(v@),
                forall|a: int, b: int| 0 <= a < i && 0 <= b < s.len() && a != b ==> s[a] != s[b],
                forall|b: int| 0 <= b < j && b != i ==> s[i as int] != s[b],
            decreases v@.len() - j,
        {
            if j != i && v[i] == v[j] {
                assert(v@[j as int]@ == v@[i as int]@);
                return Some(i);
            }
            j = j + 1;
        }
        i = i + 1;
    }
    None
}

/// Whether no identifier occurs twice in the list.
pub fn ids_unique(v: &Vec<String>) -> (r: bool)
    ensures
        r == unique(ids_view(v@)),
{
    match find_duplicate(v) {
        Some(i) => {
            proof {
                let j = choose|j: int| 0 <= j < v@.len() && j != i && (#[trigger] v@[j])@ == v@[i as int]@;
                assert(ids_view(v@)[j] == ids_view(v@)[i as int]);
            }
            false
        },
        None => true,
    }
}

/// An identifier of `a` that is also one of `b`, if any.
pub fn find_shared(a: &Vec<String>, b: &Vec<String>) -> (r: Option<usize>)
    ensures
        match r {
            Some(i) => i < a@.len() && ids_view(b@).contains(a@[i as int]@),
            None => disjoint(ids_view(a@), ids_view(b@)),
        },
{
    let mut i: usize = 0;
    while i < a.len()
        invariant
            i <= a@.len(),
            forall|x: int, y: int| 0 <= x < i && 0 <= y < b@.len() ==> #[trigger] a@[x]@ != #[trigger] b@[y]@,
        decreases a@.len() - i,
    {
        let mut j: usize = 0;
        while j < b.len()
            invariant
                i < a@.len(),
                j <= b@.len(),
                forall|x: int, y: int| 0 <= x < i && 0 <= y < b@.len() ==> #[trigger] a@[x]@ != #[trigger] b@[y]@,
                forall|y: int| 0 <= y < j ==> a@[i as int]@ != #[trigger] b@[y]@,
            decreases b@.len() - j,
        {
            if a[i] == b[j] {
                assert(ids_view(b@)[j as int] == a@[i as int]@);
                return Some(i);
            }
            j = j + 1;
        }
        i = i + 1;
    }
    assert forall|x: int, y: int| 0 <= x < ids_view(a@).len() && 0 <= y < ids_view(b@).len() implies #[trigger] ids_view(a@)[x] != #[trigger] ids_view(b@)[y] by {
        assert(a@[x]@ != b@[y]@);
    }
    None
}

/// Whether two identifier lists are equal.
pub fn ids_equal(a: &Vec<String>, b: &Vec<String>) -> (r: bool)
    ensures
        r == (ids_view(a@) == ids_view(b@)),
{
    if a.len() != b.len() {
        assert(ids_view(a@).len() != ids_view(b@).len());
        return false;
    }
    let mut i: usize = 0;
    while i < a.len()
        invariant
            a@.len() == b@.len(),
            i <= a@.len(),
            forall|j: int| 0 <= j < i ==> (#[trigger] a@[j])@ == b@[j]@,
        decreases a@.len() - i,
    {
        if a[i] != b[i] {
            assert(ids_view(a@)[i as int] != ids_view(b@)[i as int]);
            return false;
        }
        i = i + 1;
    }
    assert(ids_view(a@) =~= ids_view(b@));
    true
}

} // verus!
