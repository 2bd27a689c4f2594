use crate::sample::{Sample, SerieKey};
use crate::seq_facts::reversed;
use vstd::prelude::*;

verus! {

/// A condition on a numeric value.
#[derive(Clone, Copy, Debug, PartialEq, Eq)]
pub enum NumberTest {
    Below(i32),
    AtMost(i32),
    Above(i32),
    AtLeast(i32),
    Equal(i32),
    Different(i32),
}

/// A condition on a text value.
#[derive(Clone, Debug)]
pub enum TextTest {
    Equal(String),
    Different(String),
}

pub open spec fn number_test_holds(t: NumberTest, v: i32) -> bool {
    match t {
        NumberTest::Below(b) => v < b,
        NumberTest::AtMost(b) => v <= b,
        NumberTest::Above(b) => v > b,
        NumberTest::AtLeast(b) => v >= b,
        NumberTest::Equal(b) => v == b,
        NumberTest::Different(b) => v != b,
    }
}

pub open spec fn text_test_holds(t: TextTest, v: Seq<char>) -> bool {
    match t {
        TextTest::Equal(s) => v == s@,
        TextTest::Different(s) => v != s@,
    }
}

/// Whether every numeric condition holds of `v`.
pub open spec fn all_numbers(ts: Seq<NumberTest>, v: i32) -> bool {
    forall|i: int| 0 <= i < ts.len() ==> number_test_holds(#[trigger] ts[i], v)
}

/// Whether every text condition holds of `v`.
pub open spec fn all_texts(ts: Seq<TextTest>, v: Seq<char>) -> bool {
    forall|i: int| 0 <= i < ts.len() ==> text_test_holds(#[trigger] ts[i], v)
}

/// Whether a record, whose numeric fields are `nums` and text fields `texts`,
/// passes the conditions `ns` (for a numeric key) or `ts` (for a text key) on
/// the field `key`.
pub open spec fn passes<K: SerieKey>(
    key: K,
    ns: Seq<NumberTest>,
    ts: Seq<TextTest>,
    nums: spec_fn(K) -> i32,
    texts: spec_fn(K) -> Seq<char>,
) -> bool {
    if key.numeric() {
        all_numbers(ns, nums(key))
    } else {
        all_texts(ts, texts(key))
    }
}

/// The numeric fields of a sample.
pub open spec fn numbers_of<K: SerieKey, S: Sample<K>>(s: S) -> spec_fn(K) -> i32 {
    |k: K| s.number_at(k)
}

/// The text fields of a sample.
pub open spec fn texts_of<K: SerieKey, S: Sample<K>>(s: S) -> spec_fn(K) -> Seq<char> {
    |k: K| s.text_at(k)@
}

fn number_test_apply(t: &NumberTest, v: i32) -> (r: bool)
    ensures
        r == number_test_holds(*t, v),
{
    match t {
        NumberTest::Below(b) => v < *b,
        NumberTest::AtMost(b) => v <= *b,
        NumberTest::Above(b) => v > *b,
        NumberTest::AtLeast(b) => v >= *b,
        NumberTest::Equal(b) => v == *b,
        NumberTest::Different(b) => v != *b,
    }
}

fn text_test_apply(t: &TextTest, v: &String) -> (r: bool)
    ensures
        r == text_test_holds(*t, v@),
{
    match t {
        TextTest::Equal(s) => *v == *s,
        TextTest::Different(s) => !(*v == *s),
    }
}

fn append_number_tests(a: &mut Vec<NumberTest>, b: Vec<NumberTest>)
    ensures
        final(a)@ == old(a)@ + b@,
{
    let mut b = b;
    a.append(&mut b);
}

fn append_text_tests(a: &mut Vec<TextTest>, b: Vec<TextTest>)
    ensures
        final(a)@ == old(a)@ + b@,
{
    let mut b = b;
    a.append(&mut b);
}

/// A condition on one field of a sample: numeric conditions for a numeric
/// key, text conditions for a text key; all of them must hold.
pub struct Filter<K: SerieKey> {
    key: K,
    filter_number: Vec<NumberTest>,
    filter_str: Vec<TextTest>,
}

impl<K: SerieKey> Filter<K> {
    pub closed spec fn key(&self) -> K {
        self.key
    }

    /// The numeric conditions.
    pub closed spec fn number_tests(&self) -> Seq<NumberTest> {
        self.filter_number@
    }

    /// The text conditions.
    pub closed spec fn text_tests(&self) -> Seq<TextTest> {
        self.filter_str@
    }

    /// Conditions of one kind only, the kind of the key.
    pub open spec fn wf(&self) -> bool {
        if self.key().numeric() {
            self.text_tests().len() == 0
        } else {
            self.number_tests().len() == 0
        }
    }

    /// Whether a record with these field values passes the filter.
    pub open spec fn accepts_fields(&self, nums: spec_fn(K) -> i32, texts: spec_fn(K) -> Seq<char>) -> bool {
        passes(self.key(), self.number_tests(), self.text_tests(), nums, texts)
    }

    pub open spec fn accepts<S: Sample<K>>(&self, s: S) -> bool {
        self.accepts_fields(numbers_of(s), texts_of(s))
    }

    /// A numeric filter that accepts every value.
    pub fn new_number_identity(key: K) -> (r: Self)
        requires
            key.numeric(),
        ensures
            r.wf(),
            r.key() == key,
            r.number_tests().len() == 0,
            r.text_tests().len() == 0,
    {
        Filter { key, filter_number: Vec::new(), filter_str: Vec::new() }
    }

    /// A text filter that accepts every value.
    pub fn new_str_identity(key: K) -> (r: Self)
        requires
            !key.numeric(),
        ensures
            r.wf(),
            r.key() == key,
            r.number_tests().len() == 0,
            r.text_tests().len() == 0,
    {
        Filter { key, filter_number: Vec::new(), filter_str: Vec::new() }
    }

    pub fn new_number(key: K, tests: Vec<NumberTest>) -> (r: Self)
        requires
            key.numeric(),
        ensures
            r.wf(),
            r.key() == key,
            r.number_tests() == tests@,
            r.text_tests().len() == 0,
    {
        Filter { key, filter_number: tests, filter_str: Vec::new() }
    }

    pub fn new_str(key: K, tests: Vec<TextTest>) -> (r: Self)
        requires
            !key.numeric(),
        ensures
            r.wf(),
            r.key() == key,
            r.number_tests().len() == 0,
            r.text_tests() == tests@,
    {
        Filter { key, filter_number: Vec::new(), filter_str: tests }
    }

    pub fn get_key(&self) -> (r: &K)
        ensures
            *r == self.key(),
    {
        &self.key
    }

    pub fn get_filter_number(&self) -> (r: &Vec<NumberTest>)
        ensures
            r@ == self.number_tests(),
    {
        &self.filter_number
    }

    pub fn get_filter_str(&self) -> (r: &Vec<TextTest>)
        ensures
            r@ == self.text_tests(),
    {
        &self.filter_str
    }

    /// Adds the conditions of `other`, a filter on the same key.
    pub fn combine_ref(&mut self, other: Self)
        requires
            old(self).key() == other.key(),
            old(self).wf(),
            other.wf(),
        ensures
            final(self).wf(),
            final(self).key() == old(self).key(),
            final(self).number_tests() == old(self).number_tests() + other.number_tests(),
            final(self).text_tests() == old(self).text_tests() + other.text_tests(),
            forall|nums: spec_fn(K) -> i32, texts: spec_fn(K) -> Seq<char>|
                #[trigger] final(self).accepts_fields(nums, texts)
                    == (old(self).accepts_fields(nums, texts) && other.accepts_fields(nums, texts)),
    {
        let Filter { key: _, filter_number, filter_str } = other;
        append_number_tests(&mut self.filter_number, filter_number);
        append_text_tests(&mut self.filter_str, filter_str);
        proof {
            lemma_passes_concat(self.key, old(self).number_tests(), other.number_tests(),
                old(self).text_tests(), other.text_tests());
        }
    }

    /// The filter whose conditions are those of both filters, which share a key.
    pub fn combine(self, other: Self) -> (r: Self)
        requires
            self.key() == other.key(),
            self.wf(),
            other.wf(),
        ensures
            r.wf(),
            r.key() == self.key(),
            r.number_tests() == self.number_tests() + other.number_tests(),
            r.text_tests() == self.text_tests() + other.text_tests(),
            forall|nums: spec_fn(K) -> i32, texts: spec_fn(K) -> Seq<char>|
                #[trigger] r.accepts_fields(nums, texts)
                    == (self.accepts_fields(nums, texts) && other.accepts_fields(nums, texts)),
    {
        let mut r = self;
        r.combine_ref(other);
        r
    }

    /// Whether the sample passes the filter.
    pub fn apply<S: Sample<K>>(&self, sample: &S) -> (r: bool)
        ensures
            r == self.accepts(*sample),
    {
        if self.key.is_numeric() {
            let value = sample.get_numeric_value(&self.key);
            let mut i: usize = 0;
            while i < self.filter_number.len()
                invariant
                    i <= self.filter_number.len(),
                    self.key.numeric(),
                    value == sample.number_at(self.key),
                    forall|j: int| 0 <= j < i ==> number_test_holds(#[trigger] self.filter_number@[j], value),
                decreases self.filter_number.len() - i,
            {
                if !number_test_apply(&self.filter_number[i], value) {
                    assert(!number_test_holds(self.number_tests()[i as int], value));
                    return false;
                }
                i = i + 1;
            }
            true
        } else {
            let value = sample.get_string_value(&self.key);
            let mut i: usize = 0;
            while i < self.filter_str.len()
                invariant
                    i <= self.filter_str.len(),
                    !self.key.numeric(),
                    value@ == sample.text_at(self.key)@,
                    forall|j: int| 0 <= j < i ==> text_test_holds(#[trigger] self.filter_str@[j], value@),
                decreases self.filter_str.len() - i,
            {
                if !text_test_apply(&self.filter_str[i], &value) {
                    assert(!text_test_holds(self.text_tests()[i as int], value@));
                    return false;
                }
                i = i + 1;
            }
            true
        }
    }
}

/// A set of filters, at most one per key; a sample must pass all of them.
pub struct Filters<K: SerieKey> {
    filters: Vec<Filter<K>>,
}

impl<K: SerieKey> Filters<K> {
    pub closed spec fn members(&self) -> Seq<Filter<K>> {
        self.filters@
    }

    /// Every member is well formed, and no two members share a key.
    pub open spec fn wf(&self) -> bool {
        &&& forall|i: int| 0 <= i < self.members().len() ==> (#[trigger] self.members()[i]).wf()
        &&& forall|i: int, j: int|
            0 <= i < j < self.members().len() ==> #[trigger] self.members()[i].key()
                != #[trigger] self.members()[j].key()
    }

    /// Whether some member is a filter on `key`.
    pub open spec fn has_key(&self, key: K) -> bool {
        exists|i: int| 0 <= i < self.members().len() && #[trigger] self.members()[i].key() == key
    }

    /// The place of the member on `key`, when there is one.
    pub open spec fn key_position(&self, key: K) -> int {
        choose|i: int| 0 <= i < self.members().len() && #[trigger] self.members()[i].key() == key
    }

    /// Whether a record with these field values passes every member.
    pub open spec fn accepts_fields(&self, nums: spec_fn(K) -> i32, texts: spec_fn(K) -> Seq<char>) -> bool {
        forall|i: int| 0 <= i < self.members().len() ==> #[trigger] self.members()[i].accepts_fields(nums, texts)
    }

    pub open spec fn accepts<S: Sample<K>>(&self, s: S) -> bool {
        self.accepts_fields(numbers_of(s), texts_of(s))
    }

    /// The set without filters, which accepts everything.
    pub fn empty() -> (r: Self)
        ensures
            r.wf(),
            r.members().len() == 0,
    {
        Filters { filters: Vec::new() }
    }

    /// The set of the given filters, those on one key combined.
    pub fn new(filters: Vec<Filter<K>>) -> (r: Self)
        requires
            forall|i: int| 0 <= i < filters.len() ==> (#[trigger] filters@[i]).wf(),
        ensures
            r.wf(),
            forall|nums: spec_fn(K) -> i32, texts: spec_fn(K) -> Seq<char>|
                #[trigger] r.accepts_fields(nums, texts)
                    == (forall|i: int| 0 <= i < filters.len() ==> #[trigger] filters@[i].accepts_fields(nums, texts)),
    {
        let mut r = Self::empty();
        let ghost input = filters@;
        let mut filters = reversed(filters);
        let mut k: usize = 0;
        let n = filters.len();
        while filters.len() > 0
            invariant
                r.wf(),
                filters.len() + k == n,
                n == input.len(),
                forall|j: int| 0 <= j < filters.len() ==> #[trigger] filters@[j] == input[n - 1 - j],
                forall|i: int| 0 <= i < n ==> (#[trigger] input[i]).wf(),
                forall|nums: spec_fn(K) -> i32, texts: spec_fn(K) -> Seq<char>|
                    #[trigger] r.accepts_fields(nums, texts)
                        == (forall|i: int| 0 <= i < k ==> #[trigger] input[i].accepts_fields(nums, texts)),
            decreases filters.len(),
        {
            let f = filters.pop().unwrap();
            assert(f == input[k as int]);
            let ghost before = r;
            r.add_filter(f);
            proof {
                assert forall|nums: spec_fn(K) -> i32, texts: spec_fn(K) -> Seq<char>|
                    #[trigger] r.accepts_fields(nums, texts)
                        == (forall|i: int| 0 <= i < k + 1 ==> #[trigger] input[i].accepts_fields(nums, texts)) by {
                    assert(before.accepts_fields(nums, texts)
                        == (forall|i: int| 0 <= i < k ==> #[trigger] input[i].accepts_fields(nums, texts)));
                    if forall|i: int| 0 <= i < k + 1 ==> #[trigger] input[i].accepts_fields(nums, texts) {
                        assert(input[k as int].accepts_fields(nums, texts));
                    }
                }
            }
            k = k + 1;
        }
        r
    }

    /// Adds a filter: combined with the member on the same key if there is
    /// one, appended otherwise.
    pub fn add_filter(&mut self, filter: Filter<K>)
        requires
            old(self).wf(),
            filter.wf(),
        ensures
            final(self).wf(),
            final(self).members().len() >= old(self).members().len(),
            forall|j: int| 0 <= j < old(self).members().len() ==> #[trigger] final(self).members()[j].key()
                == old(self).members()[j].key(),
            forall|k: K| #[trigger] final(self).has_key(k) <==> (old(self).has_key(k) || k == filter.key()),
            old(self).has_key(filter.key()) ==> {
                let i = old(self).key_position(filter.key());
                &&& final(self).members().len() == old(self).members().len()
                &&& forall|j: int| 0 <= j < old(self).members().len() && j != i ==> #[trigger] final(self).members()[j]
                    == old(self).members()[j]
                &&& final(self).members()[i].key() == filter.key()
                &&& final(self).members()[i].number_tests() == old(self).members()[i].number_tests() + filter.number_tests()
                &&& final(self).members()[i].text_tests() == old(self).members()[i].text_tests() + filter.text_tests()
            },
            !old(self).has_key(filter.key()) ==> final(self).members() == old(self).members().push(filter),
            forall|nums: spec_fn(K) -> i32, texts: spec_fn(K) -> Seq<char>|
                #[trigger] final(self).accepts_fields(nums, texts)
                    == (old(self).accepts_fields(nums, texts) && filter.accepts_fields(nums, texts)),
    {
        let mut i: usize = 0;
        while i < self.filters.len()
            invariant
                i <= self.filters.len(),
                self.members() == old(self).members(),
                old(self).wf(),
                filter.wf(),
                forall|j: int| 0 <= j < i ==> (#[trigger] old(self).members()[j]).key() != filter.key(),
            decreases self.filters.len() - i,
        {
            if self.filters[i].get_key().same_key(filter.get_key()) {
                assert(self.members()[i as int].wf());
                let ghost before = self.filters@;
                let mut f = self.filters.remove(i);
                f.combine_ref(filter);
                self.filters.insert(i, f);
                proof {
                    assert(self.filters@ == before.update(i as int, f));
                    assert forall|nums: spec_fn(K) -> i32, texts: spec_fn(K) -> Seq<char>|
                        #[trigger] self.accepts_fields(nums, texts)
                            == (old(self).accepts_fields(nums, texts) && filter.accepts_fields(nums, texts)) by {
                        assert(f.accepts_fields(nums, texts)
                            == (before[i as int].accepts_fields(nums, texts) && filter.accepts_fields(nums, texts)));
                        if old(self).accepts_fields(nums, texts) && filter.accepts_fields(nums, texts) {
                            assert forall|j: int| 0 <= j < self.members().len() implies
                                #[trigger] self.members()[j].accepts_fields(nums, texts) by {
                                if j != i {
                                    assert(self.members()[j] == before[j]);
                                }
                            }
                        }
                        if self.accepts_fields(nums, texts) {
                            assert(self.members()[i as int].accepts_fields(nums, texts));
                            assert forall|j: int| 0 <= j < before.len() implies
                                #[trigger] before[j].accepts_fields(nums, texts) by {
                                if j != i {
                                    assert(self.members()[j] == before[j]);
                                }
                            }
                        }
                    }
                    assert forall|a: int, b: int| 0 <= a < b < self.members().len() implies
                        #[trigger] self.members()[a].key() != #[trigger] self.members()[b].key() by {
                        assert(before[a].key() != before[b].key());
                    }
                    assert(old(self).has_key(filter.key()));
                    let p = old(self).key_position(filter.key());
                    if p != i {
                        if p < i {
                            assert(old(self).members()[p].key() != old(self).members()[i as int].key());
                        } else {
                            assert(old(self).members()[i as int].key() != old(self).members()[p].key());
                        }
                    }
                    assert forall|j: int| 0 <= j < old(self).members().len() implies #[trigger] self.members()[j].key()
                        == old(self).members()[j].key() by {
                        if j != i {
                            assert(self.members()[j] == before[j]);
                        }
                    }
                    assert forall|k: K| #[trigger] self.has_key(k) <==> (old(self).has_key(k) || k == filter.key()) by {
                        if self.has_key(k) {
                            let j = choose|j: int| 0 <= j < self.members().len() && #[trigger] self.members()[j].key() == k;
                            assert(old(self).members()[j].key() == k);
                        }
                        if old(self).has_key(k) {
                            let j = choose|j: int| 0 <= j < old(self).members().len() && #[trigger] old(self).members()[j].key() == k;
                            assert(self.members()[j].key() == k);
                        }
                        if k == filter.key() {
                            assert(self.members()[i as int].key() == k);
                        }
                    }
                }
                return;
            }
            i = i + 1;
        }
        let ghost before = self.filters@;
        self.filters.push(filter);
        proof {
            assert(self.filters@ == before.push(filter));
            assert forall|nums: spec_fn(K) -> i32, texts: spec_fn(K) -> Seq<char>|
                #[trigger] self.accepts_fields(nums, texts)
                    == (old(self).accepts_fields(nums, texts) && filter.accepts_fields(nums, texts)) by {
                if self.accepts_fields(nums, texts) {
                    assert(self.members()[before.len() as int].accepts_fields(nums, texts));
                    assert forall|j: int| 0 <= j < before.len() implies
                        #[trigger] before[j].accepts_fields(nums, texts) by {
                        assert(self.members()[j] == before[j]);
                    }
                }
            }
            if old(self).has_key(filter.key()) {
                let j = choose|j: int| 0 <= j < old(self).members().len() && #[trigger] old(self).members()[j].key() == filter.key();
                assert(old(self).members()[j].key() != filter.key());
            }
            assert forall|j: int| 0 <= j < old(self).members().len() implies #[trigger] self.members()[j].key()
                == old(self).members()[j].key() by {
                assert(self.members()[j] == before[j]);
            }
            assert forall|k: K| #[trigger] self.has_key(k) <==> (old(self).has_key(k) || k == filter.key()) by {
                if self.has_key(k) {
                    let j = choose|j: int| 0 <= j < self.members().len() && #[trigger] self.members()[j].key() == k;
                    if j < before.len() {
                        assert(old(self).members()[j].key() == k);
                    }
                }
                if old(self).has_key(k) {
                    let j = choose|j: int| 0 <= j < old(self).members().len() && #[trigger] old(self).members()[j].key() == k;
                    assert(self.members()[j].key() == k);
                }
                if k == filter.key() {
                    assert(self.members()[before.len() as int].key() == k);
                }
            }
        }
    }

    /// Adds every filter of `other`.
    pub fn combine_ref(&mut self, other: Self)
        requires
            old(self).wf(),
            other.wf(),
        ensures
            final(self).wf(),
            forall|nums: spec_fn(K) -> i32, texts: spec_fn(K) -> Seq<char>|
                #[trigger] final(self).accepts_fields(nums, texts)
                    == (old(self).accepts_fields(nums, texts) && other.accepts_fields(nums, texts)),
            final(self).members().len() >= old(self).members().len(),
            forall|j: int| 0 <= j < old(self).members().len() ==> #[trigger] final(self).members()[j].key()
                == old(self).members()[j].key(),
            forall|k: K| #[trigger] final(self).has_key(k) <==> (old(self).has_key(k) || other.has_key(k)),
            (forall|k: K| old(self).has_key(k) ==> !other.has_key(k))
                ==> final(self).members() == old(self).members() + other.members(),
    {
        let Filters { filters: rest } = other;
        let ghost input = rest@;
        let mut rest = reversed(rest);
        let n = rest.len();
        let mut k: usize = 0;
        while rest.len() > 0
            invariant
                self.wf(),
                rest.len() + k == n,
                n == input.len(),
                forall|j: int| 0 <= j < rest.len() ==> #[trigger] rest@[j] == input[n - 1 - j],
                other.wf(),
                other.members() == input,
                forall|nums: spec_fn(K) -> i32, texts: spec_fn(K) -> Seq<char>|
                    #[trigger] self.accepts_fields(nums, texts)
                        == (old(self).accepts_fields(nums, texts)
                            && forall|i: int| 0 <= i < k ==> #[trigger] input[i].accepts_fields(nums, texts)),
                (forall|key: K| old(self).has_key(key) ==> !other.has_key(key))
                    ==> self.members() == old(self).members() + input.subrange(0, k as int),
                self.members().len() >= old(self).members().len(),
                forall|j: int| 0 <= j < old(self).members().len() ==> #[trigger] self.members()[j].key()
                    == old(self).members()[j].key(),
                forall|key: K| #[trigger] self.has_key(key) <==> (old(self).has_key(key) || exists|i: int|
                    0 <= i < k && #[trigger] input[i].key() == key),
            decreases rest.len(),
        {
            let f = rest.pop().unwrap();
            assert(f == input[k as int]);
            let ghost before = *self;
            proof {
                if forall|key: K| old(self).has_key(key) ==> !other.has_key(key) {
                    assert(other.has_key(f.key()));
                    if before.has_key(f.key()) {
                        let j = choose|j: int| 0 <= j < before.members().len() && #[trigger] before.members()[j].key() == f.key();
                        if j < old(self).members().len() {
                            assert(old(self).members()[j] == before.members()[j]);
                            assert(old(self).has_key(f.key()));
                        } else {
                            assert(before.members()[j] == input[j - old(self).members().len()]);
                            assert(input[j - old(self).members().len()].key() != input[k as int].key());
                        }
                    }
                }
            }
            self.add_filter(f);
            proof {
                assert forall|nums: spec_fn(K) -> i32, texts: spec_fn(K) -> Seq<char>|
                    #[trigger] self.accepts_fields(nums, texts)
                        == (old(self).accepts_fields(nums, texts)
                            && forall|i: int| 0 <= i < k + 1 ==> #[trigger] input[i].accepts_fields(nums, texts)) by {
                    assert(before.accepts_fields(nums, texts)
                        == (old(self).accepts_fields(nums, texts)
                            && forall|i: int| 0 <= i < k ==> #[trigger] input[i].accepts_fields(nums, texts)));
                    if forall|i: int| 0 <= i < k + 1 ==> #[trigger] input[i].accepts_fields(nums, texts) {
                        assert(input[k as int].accepts_fields(nums, texts));
                    }
                }
                if forall|key: K| old(self).has_key(key) ==> !other.has_key(key) {
                    assert(input.subrange(0, k + 1) == input.subrange(0, k as int).push(f));
                }
                assert forall|j: int| 0 <= j < old(self).members().len() implies #[trigger] self.members()[j].key()
                    == old(self).members()[j].key() by {
                    assert(before.members()[j].key() == old(self).members()[j].key());
                }
                assert forall|key: K| #[trigger] self.has_key(key) <==> (old(self).has_key(key) || exists|i: int|
                    0 <= i < k + 1 && #[trigger] input[i].key() == key) by {
                    assert(before.has_key(key) <==> (old(self).has_key(key) || exists|i: int|
                        0 <= i < k && #[trigger] input[i].key() == key));
                    if exists|i: int| 0 <= i < k + 1 && #[trigger] input[i].key() == key {
                        let i = choose|i: int| 0 <= i < k + 1 && #[trigger] input[i].key() == key;
                        if i < k {
                            assert(exists|i: int| 0 <= i < k && #[trigger] input[i].key() == key);
                        }
                    }
                }
            }
            k = k + 1;
        }
        proof {
            assert(input.subrange(0, k as int) == input);
            assert forall|key: K| #[trigger] self.has_key(key) <==> (old(self).has_key(key) || other.has_key(key)) by {
                if other.has_key(key) {
                    let i = choose|i: int| 0 <= i < other.members().len() && #[trigger] other.members()[i].key() == key;
                    assert(input[i].key() == key);
                }
            }
        }
    }

    /// The set holding the filters of both sets.
    pub fn combine(self, other: Self) -> (r: Self)
        requires
            self.wf(),
            other.wf(),
        ensures
            r.wf(),
            forall|nums: spec_fn(K) -> i32, texts: spec_fn(K) -> Seq<char>|
                #[trigger] r.accepts_fields(nums, texts)
                    == (self.accepts_fields(nums, texts) && other.accepts_fields(nums, texts)),
            r.members().len() >= self.members().len(),
            forall|j: int| 0 <= j < self.members().len() ==> #[trigger] r.members()[j].key() == self.members()[j].key(),
            forall|k: K| #[trigger] r.has_key(k) <==> (self.has_key(k) || other.has_key(k)),
            (forall|k: K| self.has_key(k) ==> !other.has_key(k))
                ==> r.members() == self.members() + other.members(),
    {
        let mut r = self;
        r.combine_ref(other);
        r
    }

    /// Whether the sample passes every filter of the set.
    pub fn apply<S: Sample<K>>(&self, sample: &S) -> (r: bool)
        ensures
            r == self.accepts(*sample),
    {
        let mut i: usize = 0;
        while i < self.filters.len()
            invariant
                i <= self.filters.len(),
                forall|j: int| 0 <= j < i ==> (#[trigger] self.members()[j]).accepts(*sample),
            decreases self.filters.len() - i,
        {
            if !self.filters[i].apply(sample) {
                assert(!self.members()[i as int].accepts(*sample));
                return false;
            }
            i = i + 1;
        }
        true
    }
}

impl<K: SerieKey> Default for Filters<K> {
    fn default() -> (r: Self)
        ensures
            r.wf(),
            r.members().len() == 0,
    {
        Self::empty()
    }
}

/// Conditions joined one after the other are passed exactly when both parts are.
pub proof fn lemma_passes_concat<K: SerieKey>(
    key: K,
    n1: Seq<NumberTest>,
    n2: Seq<NumberTest>,
    t1: Seq<TextTest>,
    t2: Seq<TextTest>,
)
    ensures
        forall|nums: spec_fn(K) -> i32, texts: spec_fn(K) -> Seq<char>|
            #[trigger] passes(key, n1 + n2, t1 + t2, nums, texts)
                == (passes(key, n1, t1, nums, texts) && passes(key, n2, t2, nums, texts)),
{
    assert forall|nums: spec_fn(K) -> i32, texts: spec_fn(K) -> Seq<char>|
        #[trigger] passes(key, n1 + n2, t1 + t2, nums, texts)
            == (passes(key, n1, t1, nums, texts) && passes(key, n2, t2, nums, texts)) by {
        if key.numeric() {
            let v = nums(key);
            let n = n1 + n2;
            if all_numbers(n1, v) && all_numbers(n2, v) {
                assert forall|i: int| 0 <= i < n.len() implies number_test_holds(#[trigger] n[i], v) by {
                    if i >= n1.len() {
                        assert(n[i] == n2[i - n1.len()]);
                    }
                }
            }
            if all_numbers(n, v) {
                assert forall|i: int| 0 <= i < n2.len() implies number_test_holds(#[trigger] n2[i], v) by {
                    assert(n[i + n1.len()] == n2[i]);
                }
                assert forall|i: int| 0 <= i < n1.len() implies number_test_holds(#[trigger] n1[i], v) by {
                    assert(n[i] == n1[i]);
                }
            }
        } else {
            let v = texts(key);
            let t = t1 + t2;
            if all_texts(t1, v) && all_texts(t2, v) {
                assert forall|i: int| 0 <= i < t.len() implies text_test_holds(#[trigger] t[i], v) by {
                    if i >= t1.len() {
                        assert(t[i] == t2[i - t1.len()]);
                    }
                }
            }
            if all_texts(t, v) {
                assert forall|i: int| 0 <= i < t2.len() implies text_test_holds(#[trigger] t2[i], v) by {
                    assert(t[i + t1.len()] == t2[i]);
                }
                assert forall|i: int| 0 <= i < t1.len() implies text_test_holds(#[trigger] t1[i], v) by {
                    assert(t[i] == t1[i]);
                }
            }
        }
    }
}

/// Combining the conditions of `a` and `b` on one key, then combining `b` in
/// once more, accepts exactly the records that the first combination accepts:
/// the AND of an AND with one of its parts is that AND.
pub proof fn lemma_combine_twice_idempotent<K: SerieKey>(
    key: K,
    na: Seq<NumberTest>,
    ta: Seq<TextTest>,
    nb: Seq<NumberTest>,
    tb: Seq<TextTest>,
    nums: spec_fn(K) -> i32,
    texts: spec_fn(K) -> Seq<char>,
)
    ensures
        passes(key, na + nb + nb, ta + tb + tb, nums, texts) == passes(key, na + nb, ta + tb, nums, texts),
{
    lemma_passes_concat(key, na, nb, ta, tb);
    lemma_passes_concat(key, na + nb, nb, ta + tb, tb);
}

} // verus!
