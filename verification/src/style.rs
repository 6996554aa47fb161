//! The stylesheet store: a flat mapping from string keys to tagged values.
//!
//! Values come in exactly three kinds: a four-component byte color, a
//! decimal scalar, and a text string. A scalar is kept exactly as its
//! decimal digits, so that writing a stylesheet out and reading it back
//! loses nothing.

use vstd::prelude::*;

verus! {

/// The double-quote byte, which delimits keys and text values.
pub const QUOTE: u8 = 34;

/// The backslash byte, excluded from keys and text so no escaping is needed.
pub const BACKSLASH: u8 = 92;

/// True of the ASCII decimal digits.
pub open spec fn is_digit(b: u8) -> bool {
    48 <= b <= 57
}

/// True of the bytes allowed inside a key or a text value: anything from
/// space upward except the quote and the backslash, so a key or text is
/// written verbatim between quotes.
pub open spec fn is_text_byte(b: u8) -> bool {
    b >= 32 && b != QUOTE && b != BACKSLASH
}

/// A decimal scalar literal, kept exactly as written: an optional leading
/// minus, the digits before the point, and the digits after it. Keeping
/// the digits avoids rounding and makes serialization exact; a host that
/// needs a machine number converts at the boundary.
#[derive(Debug)]
pub struct FloatLit {
    pub neg: bool,
    pub int_digits: Vec<u8>,
    pub frac_digits: Vec<u8>,
}

/// Mathematical image of a `FloatLit`.
pub struct SpecFloat {
    pub neg: bool,
    pub int_digits: Seq<u8>,
    pub frac_digits: Seq<u8>,
}

impl View for FloatLit {
    type V = SpecFloat;

    open spec fn view(&self) -> SpecFloat {
        SpecFloat {
            neg: self.neg,
            int_digits: self.int_digits@,
            frac_digits: self.frac_digits@,
        }
    }
}

impl SpecFloat {
    /// A well-formed literal has at least one digit on each side of the
    /// point, and nothing but digits.
    pub open spec fn wf(self) -> bool {
        &&& self.int_digits.len() > 0
        &&& self.frac_digits.len() > 0
        &&& forall|i: int|
            0 <= i < self.int_digits.len() ==> is_digit(#[trigger] self.int_digits[i])
        &&& forall|i: int|
            0 <= i < self.frac_digits.len() ==> is_digit(#[trigger] self.frac_digits[i])
    }
}

impl PartialEq for FloatLit {
    fn eq(&self, o: &FloatLit) -> (r: bool) {
        self.neg == o.neg && bytes_eq(&self.int_digits, &o.int_digits) && bytes_eq(
            &self.frac_digits,
            &o.frac_digits,
        )
    }
}

impl vstd::std_specs::cmp::PartialEqSpecImpl for FloatLit {
    open spec fn obeys_eq_spec() -> bool {
        true
    }

    open spec fn eq_spec(&self, o: &FloatLit) -> bool {
        self@ == o@
    }
}

/// A style entry's value: one of exactly three kinds.
#[derive(Debug)]
pub enum StyleValue {
    Color(u8, u8, u8, u8),
    Float(FloatLit),
    Text(Vec<u8>),
}

/// Mathematical image of a `StyleValue`.
pub enum SpecValue {
    Color(u8, u8, u8, u8),
    Float(SpecFloat),
    Text(Seq<u8>),
}

impl View for StyleValue {
    type V = SpecValue;

    open spec fn view(&self) -> SpecValue {
        match self {
            StyleValue::Color(r, g, b, a) => SpecValue::Color(*r, *g, *b, *a),
            StyleValue::Float(f) => SpecValue::Float(f@),
            StyleValue::Text(t) => SpecValue::Text(t@),
        }
    }
}

impl SpecValue {
    /// A well-formed value: a scalar has well-formed digits, a text holds
    /// only bytes that can stand verbatim between quotes. Colors are
    /// always well-formed.
    pub open spec fn wf(self) -> bool {
        match self {
            SpecValue::Color(_, _, _, _) => true,
            SpecValue::Float(f) => f.wf(),
            SpecValue::Text(t) => forall|i: int| 0 <= i < t.len() ==> is_text_byte(#[trigger] t[i]),
        }
    }
}

impl PartialEq for StyleValue {
    fn eq(&self, o: &StyleValue) -> (r: bool) {
        match (self, o) {
            (StyleValue::Color(r1, g1, b1, a1), StyleValue::Color(r2, g2, b2, a2)) => r1 == r2
                && g1 == g2 && b1 == b2 && a1 == a2,
            (StyleValue::Float(f1), StyleValue::Float(f2)) => f1 == f2,
            (StyleValue::Text(t1), StyleValue::Text(t2)) => bytes_eq(t1, t2),
            _ => false,
        }
    }
}

impl vstd::std_specs::cmp::PartialEqSpecImpl for StyleValue {
    open spec fn obeys_eq_spec() -> bool {
        true
    }

    open spec fn eq_spec(&self, o: &StyleValue) -> bool {
        self@ == o@
    }
}

/// True of a key that can stand verbatim between quotes.
pub open spec fn wf_key(k: Seq<u8>) -> bool {
    forall|i: int| 0 <= i < k.len() ==> is_text_byte(#[trigger] k[i])
}

/// One stylesheet entry: a key with its tagged value.
#[derive(Debug)]
pub struct StyleEntry {
    pub key: Vec<u8>,
    pub value: StyleValue,
}

impl View for StyleEntry {
    type V = (Seq<u8>, SpecValue);

    open spec fn view(&self) -> (Seq<u8>, SpecValue) {
        (self.key@, self.value@)
    }
}

impl PartialEq for StyleEntry {
    fn eq(&self, o: &StyleEntry) -> (r: bool) {
        bytes_eq(&self.key, &o.key) && self.value == o.value
    }
}

impl vstd::std_specs::cmp::PartialEqSpecImpl for StyleEntry {
    open spec fn obeys_eq_spec() -> bool {
        true
    }

    open spec fn eq_spec(&self, o: &StyleEntry) -> bool {
        self@ == o@
    }
}

/// Well-formed entry sequence: every entry well-formed and keys unique.
pub open spec fn wf_entries(es: Seq<(Seq<u8>, SpecValue)>) -> bool {
    &&& forall|i: int|
        0 <= i < es.len() ==> wf_key(#[trigger] es[i].0) && es[i].1.wf()
    &&& forall|i: int, j: int| 0 <= i < j < es.len() ==> es[i].0 != es[j].0
}

/// The mapping an entry sequence denotes; a later entry for the same key
/// wins, though well-formed sheets never hold two entries for one key.
pub open spec fn map_of(es: Seq<(Seq<u8>, SpecValue)>) -> Map<Seq<u8>, SpecValue>
    decreases es.len(),
{
    if es.len() == 0 {
        Map::empty()
    } else {
        map_of(es.drop_last()).insert(es.last().0, es.last().1)
    }
}

/// A key is in the denoted mapping exactly when some entry carries it.
pub proof fn lemma_map_of_contains(es: Seq<(Seq<u8>, SpecValue)>, k: Seq<u8>)
    ensures
        map_of(es).dom().contains(k) <==> exists|i: int| 0 <= i < es.len() && es[i].0 == k,
    decreases es.len(),
{
    if es.len() > 0 {
        lemma_map_of_contains(es.drop_last(), k);
        if es.last().0 == k {
            assert(es[es.len() - 1].0 == k);
        } else if map_of(es).dom().contains(k) {
            let i = choose|i: int| 0 <= i < es.drop_last().len() && es.drop_last()[i].0 == k;
            assert(es[i].0 == k);
        } else if exists|i: int| 0 <= i < es.len() && es[i].0 == k {
            let i = choose|i: int| 0 <= i < es.len() && es[i].0 == k;
            assert(es.drop_last()[i].0 == k);
        }
    }
}

/// The key of any entry is in the denoted mapping.
pub proof fn lemma_map_of_contains_at(es: Seq<(Seq<u8>, SpecValue)>, i: int)
    requires
        0 <= i < es.len(),
    ensures
        map_of(es).dom().contains(es[i].0),
    decreases es.len(),
{
    if i < es.len() - 1 {
        lemma_map_of_contains_at(es.drop_last(), i);
        assert(es.drop_last()[i] == es[i]);
    }
}

/// With unique keys, the entry carrying a key gives its mapped value.
pub proof fn lemma_map_of_index(es: Seq<(Seq<u8>, SpecValue)>, i: int)
    requires
        forall|p: int, q: int| 0 <= p < q < es.len() ==> es[p].0 != es[q].0,
        0 <= i < es.len(),
    ensures
        map_of(es).dom().contains(es[i].0),
        map_of(es)[es[i].0] == es[i].1,
    decreases es.len(),
{
    if i == es.len() - 1 {
        lemma_map_of_contains(es, es[i].0);
    } else {
        lemma_map_of_index(es.drop_last(), i);
        assert(es.drop_last()[i] == es[i]);
        assert(es.last().0 != es[i].0);
    }
}

/// The images of a sequence of entries.
pub open spec fn entries_view(es: Seq<StyleEntry>) -> Seq<(Seq<u8>, SpecValue)> {
    es.map_values(|e: StyleEntry| e@)
}

/// Whether some entry of the vector carries this key.
pub fn entries_contains(es: &Vec<StyleEntry>, k: &Vec<u8>) -> (r: bool)
    ensures
        r == map_of(entries_view(es@)).dom().contains(k@),
{
    proof {
        lemma_map_of_contains(entries_view(es@), k@);
    }
    let n = es.len();
    let mut i: usize = 0;
    while i < n
        invariant
            n == es@.len(),
            0 <= i <= n,
            forall|j: int| 0 <= j < i ==> entries_view(es@)[j].0 != k@,
        decreases n - i,
    {
        if bytes_eq(&es[i].key, k) {
            assert(entries_view(es@)[i as int].0 == k@);
            proof {
                lemma_map_of_contains_at(entries_view(es@), i as int);
            }
            return true;
        }
        i += 1;
    }
    false
}

/// The value the vector maps this key to, if any.
pub fn entries_get<'a>(es: &'a Vec<StyleEntry>, k: &Vec<u8>) -> (r: Option<&'a StyleValue>)
    requires
        forall|p: int, q: int|
            0 <= p < q < entries_view(es@).len() ==> entries_view(es@)[p].0 != entries_view(
                es@,
            )[q].0,
    ensures
        match r {
            Some(v) => map_of(entries_view(es@)).dom().contains(k@) && v@ == map_of(
                entries_view(es@),
            )[k@],
            None => !map_of(entries_view(es@)).dom().contains(k@),
        },
{
    proof {
        lemma_map_of_contains(entries_view(es@), k@);
    }
    let n = es.len();
    let mut i: usize = 0;
    while i < n
        invariant
            n == es@.len(),
            forall|p: int, q: int|
                0 <= p < q < entries_view(es@).len() ==> entries_view(es@)[p].0 != entries_view(
                    es@,
                )[q].0,
            0 <= i <= n,
            forall|j: int| 0 <= j < i ==> entries_view(es@)[j].0 != k@,
        decreases n - i,
    {
        if bytes_eq(&es[i].key, k) {
            assert(entries_view(es@)[i as int].0 == k@);
            proof {
                lemma_map_of_index(entries_view(es@), i as int);
            }
            return Some(&es[i].value);
        }
        i += 1;
    }
    None
}

/// A copy of the vector with the key bound to the value: every entry with
/// that key dropped, the new binding appended. Keys stay unique.
pub fn entries_set(es: &Vec<StyleEntry>, key: Vec<u8>, value: StyleValue) -> (out: Vec<
    StyleEntry,
>)
    requires
        wf_entries(entries_view(es@)),
        wf_key(key@),
        value@.wf(),
    ensures
        wf_entries(entries_view(out@)),
        map_of(entries_view(out@)) == map_of(entries_view(es@)).insert(key@, value@),
{
    let ghost old_es = entries_view(es@);
    let n = es.len();
    let mut out: Vec<StyleEntry> = Vec::new();
    let mut i: usize = 0;
    while i < n
        invariant
            n == old_es.len(),
            old_es == entries_view(es@),
            wf_entries(old_es),
            wf_key(key@),
            0 <= i <= n,
            entries_view(out@) == without_key(old_es.take(i as int), key@),
        decreases n - i,
    {
        proof {
            assert(old_es.take(i + 1).drop_last() =~= old_es.take(i as int));
            lemma_without_key_step(old_es.take(i + 1), key@);
        }
        if !bytes_eq(&es[i].key, &key) {
            let e = clone_entry(&es[i]);
            let ghost prev = entries_view(out@);
            out.push(e);
            proof {
                assert(entries_view(out@) =~= prev.push(old_es[i as int]));
            }
        }
        i += 1;
    }
    proof {
        assert(old_es.take(n as int) =~= old_es);
    }
    let ghost kept = entries_view(out@);
    let ghost pair = (key@, value@);
    out.push(StyleEntry { key, value });
    proof {
        assert(entries_view(out@) =~= kept.push(pair));
        assert(kept.push(pair).drop_last() =~= kept);
        lemma_without_key_map(old_es, key@);
        lemma_without_key_wf(old_es, key@);
        assert(map_of(kept.push(pair)) == map_of(kept).insert(key@, value@));
        assert(map_of(kept).insert(key@, value@) =~= map_of(old_es).insert(key@, value@));
        assert forall|i: int, j: int|
            0 <= i < j < kept.push(pair).len() implies kept.push(pair)[i].0 != kept.push(
            pair,
        )[j].0 by {
            if j == kept.len() {
                assert(kept.push(pair)[i] == kept[i]);
                assert(kept[i].0 != key@);
            }
        }
    }
    out
}

/// A verified copy of an entry vector.
pub fn clone_entries(es: &Vec<StyleEntry>) -> (r: Vec<StyleEntry>)
    ensures
        entries_view(r@) == entries_view(es@),
{
    let n = es.len();
    let mut r: Vec<StyleEntry> = Vec::new();
    let mut i: usize = 0;
    while i < n
        invariant
            n == es@.len(),
            0 <= i <= n,
            entries_view(r@) == entries_view(es@).take(i as int),
        decreases n - i,
    {
        let ghost prev = entries_view(r@);
        r.push(clone_entry(&es[i]));
        proof {
            assert(entries_view(r@) =~= prev.push(entries_view(es@)[i as int]));
            assert(entries_view(es@).take(i + 1) =~= entries_view(es@).take(i as int).push(
                entries_view(es@)[i as int],
            ));
        }
        i += 1;
    }
    proof {
        assert(entries_view(es@).take(n as int) =~= entries_view(es@));
    }
    r
}

/// The stylesheet store: the current parsed style entries, keys unique.
#[derive(Debug)]
pub struct Stylesheet {
    map: Vec<StyleEntry>,
}

impl View for Stylesheet {
    type V = Seq<(Seq<u8>, SpecValue)>;

    closed spec fn view(&self) -> Seq<(Seq<u8>, SpecValue)> {
        entries_view(self.map@)
    }
}

impl Stylesheet {
    /// Well-formedness: every entry well-formed, keys unique.
    pub open spec fn wf(&self) -> bool {
        wf_entries(self@)
    }

    /// The mapping this sheet denotes.
    pub open spec fn as_map(&self) -> Map<Seq<u8>, SpecValue> {
        map_of(self@)
    }

    /// An empty stylesheet.
    pub fn new() -> (r: Stylesheet)
        ensures
            r@ == Seq::<(Seq<u8>, SpecValue)>::empty(),
            r.wf(),
    {
        let r = Stylesheet { map: Vec::new() };
        proof {
            assert(r@ =~= Seq::<(Seq<u8>, SpecValue)>::empty());
        }
        r
    }

    /// How many entries the sheet holds.
    pub fn len(&self) -> (n: usize)
        ensures
            n == self@.len(),
    {
        self.map.len()
    }

    /// The entry at an index, for walking the sheet.
    pub fn entry_at(&self, i: usize) -> (e: &StyleEntry)
        requires
            i < self@.len(),
        ensures
            e@ == self@[i as int],
    {
        &self.map[i]
    }

    /// A stylesheet from a vector of entries with unique keys, as the
    /// parser builds one.
    pub fn from_entries(map: Vec<StyleEntry>) -> (r: Stylesheet)
        requires
            wf_entries(entries_view(map@)),
        ensures
            r@ == entries_view(map@),
            r.wf(),
    {
        Stylesheet { map }
    }

    /// Whether some entry carries this key.
    pub fn contains_key(&self, k: &Vec<u8>) -> (r: bool)
        ensures
            r == self.as_map().dom().contains(k@),
    {
        entries_contains(&self.map, k)
    }

    /// The value mapped to a key, if any.
    pub fn get(&self, k: &Vec<u8>) -> (r: Option<&StyleValue>)
        requires
            self.wf(),
        ensures
            match r {
                Some(v) => self.as_map().dom().contains(k@) && v@ == self.as_map()[k@],
                None => !self.as_map().dom().contains(k@),
            },
    {
        entries_get(&self.map, k)
    }

    /// Whether two sheets hold the same entries in the same order.
    fn entries_equal(&self, o: &Stylesheet) -> (r: bool)
        ensures
            r == (self@ == o@),
    {
        if self.map.len() != o.map.len() {
            assert(self@.len() != o@.len());
            return false;
        }
        let n = self.map.len();
        let mut i: usize = 0;
        while i < n
            invariant
                n == self@.len(),
                n == o@.len(),
                0 <= i <= n,
                forall|j: int| 0 <= j < i ==> self@[j] == o@[j],
            decreases n - i,
        {
            if !(self.map[i] == o.map[i]) {
                assert(self@[i as int] != o@[i as int]);
                return false;
            }
            i += 1;
        }
        proof {
            assert(self@ =~= o@);
        }
        true
    }

    /// Replace any entry with this key by the given value, or add one.
    /// The mapping afterwards is the old mapping with the key bound to
    /// the value; well-formedness is kept.
    pub fn insert(&mut self, key: Vec<u8>, value: StyleValue)
        requires
            old(self).wf(),
            wf_key(key@),
            value@.wf(),
        ensures
            final(self).wf(),
            final(self).as_map() == old(self).as_map().insert(key@, value@),
    {
        let out = entries_set(&self.map, key, value);
        self.map = out;
    }
}

impl PartialEq for Stylesheet {
    fn eq(&self, o: &Stylesheet) -> (r: bool) {
        self.entries_equal(o)
    }
}

impl vstd::std_specs::cmp::PartialEqSpecImpl for Stylesheet {
    open spec fn obeys_eq_spec() -> bool {
        true
    }

    open spec fn eq_spec(&self, o: &Stylesheet) -> bool {
        self@ == o@
    }
}

/// The entries of a sequence whose key differs from `k`, in order.
pub open spec fn without_key(es: Seq<(Seq<u8>, SpecValue)>, k: Seq<u8>) -> Seq<
    (Seq<u8>, SpecValue),
> {
    es.filter(|p: (Seq<u8>, SpecValue)| p.0 != k)
}

/// One unfolding step of `without_key`.
pub proof fn lemma_without_key_step(es: Seq<(Seq<u8>, SpecValue)>, k: Seq<u8>)
    ensures
        es.len() == 0 ==> without_key(es, k) == Seq::<(Seq<u8>, SpecValue)>::empty(),
        es.len() > 0 ==> without_key(es, k) == if es.last().0 != k {
            without_key(es.drop_last(), k).push(es.last())
        } else {
            without_key(es.drop_last(), k)
        },
{
    reveal(Seq::filter);
    if es.len() == 0 {
        assert(without_key(es, k) =~= Seq::<(Seq<u8>, SpecValue)>::empty());
    }
}

/// Dropping a key removes exactly that key from the denoted mapping.
pub proof fn lemma_without_key_map(es: Seq<(Seq<u8>, SpecValue)>, k: Seq<u8>)
    ensures
        map_of(without_key(es, k)) == map_of(es).remove(k),
    decreases es.len(),
{
    lemma_without_key_step(es, k);
    if es.len() == 0 {
        assert(map_of(es).remove(k) =~= Map::empty());
    } else {
        lemma_without_key_map(es.drop_last(), k);
        let prev = without_key(es.drop_last(), k);
        if es.last().0 != k {
            let w = prev.push(es.last());
            assert(w.drop_last() =~= prev);
            assert(map_of(prev).insert(es.last().0, es.last().1) =~= map_of(es).remove(k));
        } else {
            assert(map_of(prev) =~= map_of(es).remove(k));
        }
    }
}

/// Dropping a key keeps entries well-formed, drops every entry with that
/// key, and invents no entry.
pub proof fn lemma_without_key_wf(es: Seq<(Seq<u8>, SpecValue)>, k: Seq<u8>)
    requires
        wf_entries(es),
    ensures
        wf_entries(without_key(es, k)),
        forall|i: int|
            0 <= i < without_key(es, k).len() ==> (#[trigger] without_key(es, k)[i]).0 != k,
        forall|i: int|
            0 <= i < without_key(es, k).len() ==> exists|oi: int|
                0 <= oi < es.len() && es[oi] == #[trigger] without_key(es, k)[i],
    decreases es.len(),
{
    lemma_without_key_step(es, k);
    if es.len() > 0 {
        let last = es.last();
        assert forall|i: int|
            0 <= i < es.drop_last().len() implies wf_key(
            (#[trigger] es.drop_last()[i]).0,
        ) && es.drop_last()[i].1.wf() by {
            assert(es.drop_last()[i] == es[i]);
        }
        assert forall|p: int, q: int|
            0 <= p < q < es.drop_last().len() implies es.drop_last()[p].0 != es.drop_last()[q].0 by {
            assert(es.drop_last()[p] == es[p]);
            assert(es.drop_last()[q] == es[q]);
        }
        lemma_without_key_wf(es.drop_last(), k);
        let prev = without_key(es.drop_last(), k);
        let w = without_key(es, k);
        assert forall|i: int|
            0 <= i < w.len() implies exists|oi: int| 0 <= oi < es.len() && es[oi] == #[trigger] w[i] by {
            if i < prev.len() {
                let oi = choose|oi: int|
                    0 <= oi < es.drop_last().len() && es.drop_last()[oi] == prev[i];
                assert(es[oi] == w[i]);
            } else {
                assert(es[es.len() - 1] == w[i]);
            }
        }
        assert forall|i: int, j: int| 0 <= i < j < w.len() implies w[i].0 != w[j].0 by {
            if j < prev.len() {
            } else {
                assert(w[j] == last);
                let oi = choose|oi: int|
                    0 <= oi < es.drop_last().len() && es.drop_last()[oi] == prev[i];
                assert(es[oi] == w[i]);
                assert(es[oi].0 != last.0);
            }
        }
        assert forall|i: int| 0 <= i < w.len() implies wf_key((#[trigger] w[i]).0) && w[i].1.wf() by {
            let oi = choose|oi: int| 0 <= oi < es.len() && es[oi] == w[i];
            assert(wf_key(es[oi].0) && es[oi].1.wf());
        }
    }
}

/// Byte-vector equality, decided by contents.
pub fn bytes_eq(a: &Vec<u8>, b: &Vec<u8>) -> (r: bool)
    ensures
        r == (a@ == b@),
{
    if a.len() != b.len() {
        assert(a@ != b@);
        return false;
    }
    let n = a.len();
    let mut i: usize = 0;
    while i < n
        invariant
            n == a@.len(),
            n == b@.len(),
            0 <= i <= n,
            forall|j: int| 0 <= j < i ==> a@[j] == b@[j],
        decreases n - i,
    {
        if a[i] != b[i] {
            return false;
        }
        i += 1;
    }
    proof {
        assert(a@ =~= b@);
    }
    true
}

/// A verified copy of a byte vector.
pub fn clone_bytes(v: &Vec<u8>) -> (r: Vec<u8>)
    ensures
        r@ == v@,
{
    let n = v.len();
    let mut r: Vec<u8> = Vec::new();
    let mut i: usize = 0;
    while i < n
        invariant
            n == v@.len(),
            0 <= i <= n,
            r@ == v@.take(i as int),
        decreases n - i,
    {
        r.push(v[i]);
        proof {
            assert(v@.take(i + 1) =~= v@.take(i as int).push(v@[i as int]));
        }
        i += 1;
    }
    proof {
        assert(v@.take(n as int) =~= v@);
    }
    r
}

/// A verified copy of a style value.
pub fn clone_value(v: &StyleValue) -> (r: StyleValue)
    ensures
        r@ == v@,
{
    match v {
        StyleValue::Color(r, g, b, a) => StyleValue::Color(*r, *g, *b, *a),
        StyleValue::Float(f) => StyleValue::Float(
            FloatLit {
                neg: f.neg,
                int_digits: clone_bytes(&f.int_digits),
                frac_digits: clone_bytes(&f.frac_digits),
            },
        ),
        StyleValue::Text(t) => StyleValue::Text(clone_bytes(t)),
    }
}

/// A verified copy of a style entry.
pub fn clone_entry(e: &StyleEntry) -> (r: StyleEntry)
    ensures
        r@ == e@,
{
    StyleEntry { key: clone_bytes(&e.key), value: clone_value(&e.value) }
}

} // verus!
