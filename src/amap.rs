use std::sync::atomic::{AtomicI64, Ordering};
use std::sync::Arc;

use vstd::prelude::*;

use crate::error::MetricsError;
use crate::render::{int_text, push_int};

verus! {

/// A fixed set of named counters that clones share and that can be
/// incremented concurrently.
#[derive(Debug, Clone)]
pub struct AmapMetrics {
    names: Arc<Vec<&'static str>>,
    counters: Arc<Vec<AtomicI64>>,
}

/// The texts of `names`.
pub open spec fn names_of(names: Seq<&'static str>) -> Seq<Seq<char>> {
    names.map_values(|s: &'static str| s@)
}

/// No name appears twice.
pub open spec fn unique(names: Seq<Seq<char>>) -> bool {
    forall|i: int, j: int| 0 <= i < names.len() && 0 <= j < names.len() && i != j ==> #[trigger] names[i] != #[trigger] names[j]
}

/// One line per counter, `name: value`, in the order of the names.
pub open spec fn dump_text(names: Seq<Seq<char>>, values: Seq<i64>) -> Seq<char>
    decreases names.len(),
{
    if names.len() == 0 || values.len() == 0 {
        Seq::empty()
    } else {
        dump_text(names.drop_last(), values.drop_last()) + names.last() + seq![':', ' '] + int_text(
            values.last() as int,
        ) + seq!['\n']
    }
}

/// Whether two strings hold the same characters.
fn same_text(x: &str, y: &str) -> (r: bool)
    ensures
        r == (x@ == y@),
{
    let a = x.as_bytes();
    let b = y.as_bytes();
    if a.len() != b.len() {
        return false;
    }
    let mut i: usize = 0;
    while i < a.len()
        invariant
            a@.len() == b@.len(),
            i <= a@.len(),
            a@ == vstd::utf8::encode_utf8(x@),
            b@ == vstd::utf8::encode_utf8(y@),
            a@.subrange(0, i as int) == b@.subrange(0, i as int),
        decreases a@.len() - i,
    {
        if a[i] != b[i] {
            assert(a@[i as int] != b@[i as int]);
            assert(a@ != b@);
            return false;
        }
        assert(a@.subrange(0, i + 1) =~= a@.subrange(0, i as int).push(a@[i as int]));
        assert(b@.subrange(0, i + 1) =~= b@.subrange(0, i as int).push(b@[i as int]));
        i = i + 1;
    }
    assert(a@ =~= a@.subrange(0, a@.len() as int));
    assert(b@ =~= b@.subrange(0, b@.len() as int));
    proof {
        vstd::utf8::encode_utf8_decode_utf8(x@);
        vstd::utf8::encode_utf8_decode_utf8(y@);
    }
    true
}

/// Where `key` stands among `names`, if it does.
fn position(names: &Vec<&'static str>, key: &str) -> (r: Option<usize>)
    ensures
        r matches Some(i) ==> i < names@.len() && names@[i as int]@ == key@,
        r is None ==> forall|i: int| 0 <= i < names@.len() ==> #[trigger] names@[i]@ != key@,
{
    let mut i: usize = 0;
    while i < names.len()
        invariant
            i <= names@.len(),
            forall|t: int| 0 <= t < i ==> #[trigger] names@[t]@ != key@,
        decreases names@.len() - i,
    {
        if same_text(names[i], key) {
            return Some(i);
        }
        i = i + 1;
    }
    None
}

impl AmapMetrics {
    /// The names of the counters, in order.
    pub closed spec fn names(&self) -> Seq<Seq<char>> {
        names_of(self.names@)
    }

    /// Each name has its own counter, and no name appears twice.
    pub closed spec fn wf(&self) -> bool {
        &&& self.names@.len() == self.counters@.len()
        &&& unique(self.names())
    }

    /// One counter at zero for each distinct name of `metric_names`.
    pub fn new(metric_names: &[&'static str]) -> (r: Self)
        ensures
            r.wf(),
            unique(r.names()),
            forall|i: int| 0 <= i < metric_names@.len() ==> r.names().contains(#[trigger] metric_names@[i]@),
            forall|i: int| 0 <= i < r.names().len() ==> names_of(metric_names@).contains(#[trigger] r.names()[i]),
    {
        let mut names: Vec<&'static str> = Vec::new();
        let mut counters: Vec<AtomicI64> = Vec::new();
        let mut k: usize = 0;
        while k < metric_names.len()
            invariant
                k <= metric_names@.len(),
                names@.len() == counters@.len(),
                forall|i: int, j: int|
                    0 <= i < names@.len() && 0 <= j < names@.len() && i != j ==> #[trigger] names@[i]@
                        != #[trigger] names@[j]@,
                forall|i: int|
                    #![trigger metric_names@[i]]
                    0 <= i < k ==> exists|j: int| 0 <= j < names@.len() && #[trigger] names@[j]@ == #[trigger] metric_names@[i]@,
                forall|i: int|
                    #![trigger names@[i]]
                    0 <= i < names@.len() ==> exists|t: int| 0 <= t < k && #[trigger] names@[i]@ == #[trigger] metric_names@[t]@,
            decreases metric_names@.len() - k,
        {
            let name = metric_names[k];
            let ghost old_names = names@;
            match position(&names, name) {
                Some(i) => {},
                None => {
                    names.push(name);
                    counters.push(AtomicI64::new(0));
                    proof {
                        assert forall|i: int| 0 <= i < names@.len() implies exists|t: int| 0 <= t < k + 1 && #[trigger] names@[i]@ == #[trigger] metric_names@[t]@ by {
                            if i == names@.len() - 1 {
                                assert(names@[i]@ == metric_names@[k as int]@);
                            } else {
                                assert(names@[i] == old_names[i]);
                            }
                        }
                        assert forall|i: int| 0 <= i < k implies exists|j: int| 0 <= j < names@.len() && #[trigger] names@[j]@ == #[trigger] metric_names@[i]@ by {
                            let j = choose|j: int| 0 <= j < old_names.len() && #[trigger] old_names[j]@ == metric_names@[i]@;
                            assert(names@[j] == old_names[j]);
                        }
                        assert(names@[names@.len() - 1]@ == metric_names@[k as int]@);
                    }
                },
            }
            k = k + 1;
        }
        proof {
            let view = names@.map_values(|s: &'static str| s@);
            assert forall|i: int| 0 <= i < metric_names@.len() implies view.contains(#[trigger] metric_names@[i]@) by {
                let j = choose|j: int| 0 <= j < names@.len() && #[trigger] names@[j]@ == metric_names@[i]@;
                assert(view[j] == metric_names@[i]@);
            }
        }
        let r = AmapMetrics { names: Arc::new(names), counters: Arc::new(counters) };
        proof {
            assert forall|i: int| 0 <= i < r.names().len() implies names_of(metric_names@).contains(#[trigger] r.names()[i]) by {
                assert(r.names()[i] == names@[i]@);
                let t = choose|t: int| 0 <= t < k && #[trigger] names@[i]@ == #[trigger] metric_names@[t]@;
                assert(names_of(metric_names@)[t] == r.names()[i]);
            }
        }
        r
    }

    /// Adds one to the counter named `key`; fails when no counter has that
    /// name.
    pub fn inc(&self, key: &str) -> (r: Result<(), MetricsError>)
        requires
            self.wf(),
        ensures
            r is Ok <==> self.names().contains(key@),
            r matches Err(e) ==> e == MetricsError::KeyNotFound,
    {
        match position(&self.names, key) {
            Some(i) => {
                assert(self.names()[i as int] == key@);
                self.counters[i].fetch_add(1, Ordering::Relaxed);
                Ok(())
            },
            None => {
                assert(!self.names().contains(key@));
                Err(MetricsError::KeyNotFound)
            },
        }
    }

    /// Every counter as a line `name: value`, in the order of the names; each
    /// value is read once, while other threads may still be incrementing.
    pub fn display_string(&self) -> (r: String)
        requires
            self.wf(),
        ensures
            exists|values: Seq<i64>| values.len() == self.names().len() && r@ == dump_text(self.names(), values),
    {
        let ghost values: Seq<i64> = Seq::empty();
        let mut s = String::new();
        let mut i: usize = 0;
        while i < self.names.len()
            invariant
                self.wf(),
                i <= self.names@.len(),
                values.len() == i,
                s@ == dump_text(self.names().take(i as int), values),
            decreases self.names@.len() - i,
        {
            let value = self.counters[i].load(Ordering::Relaxed);
            proof {
                reveal_strlit(": ");
                reveal_strlit("\n");
                assert(": "@ =~= seq![':', ' ']);
                assert("\n"@ =~= seq!['\n']);
            }
            let name: &'static str = self.names[i];
            assert(name@ == self.names()[i as int]);
            s.append(name);
            s.append(": ");
            push_int(&mut s, value);
            s.append("\n");
            proof {
                let next = self.names().take(i + 1);
                assert(next.drop_last() =~= self.names().take(i as int));
                assert(next.last() == self.names@[i as int]@);
                assert(s@ =~= dump_text(next.drop_last(), values) + next.last() + seq![':', ' '] + int_text(
                    value as int,
                ) + seq!['\n']);
                assert(values.push(value).drop_last() =~= values);
                values = values.push(value);
            }
            i = i + 1;
        }
        assert(self.names().take(i as int) =~= self.names());
        s
    }
}

} // verus!
