use std::collections::BTreeMap;
use vstd::prelude::*;
use vstd::std_specs::btree::{increasing_seq, spec_btree_map_iter};
use vstd::std_specs::cmp::OrdSpec;
use vstd::std_specs::iter::IteratorSpec;
use vstd::string::{StrSliceExecFns, StringExecFns};

verus! {

broadcast use {vstd::std_specs::btree::group_btree_axioms, vstd::laws_cmp::group_laws_cmp};

/// What pressing a key means: the exit code to leave with, and the text shown for it.
#[derive(Debug)]
pub struct KeyMapping {
    pub ret_code: i32,
    pub label: String,
}

impl View for KeyMapping {
    type V = (int, Seq<char>);

    open spec fn view(&self) -> (int, Seq<char>) {
        (self.ret_code as int, self.label@)
    }
}

/// The number under which a key is stored.
pub open spec fn key_code(c: char) -> u32 {
    c as u32
}

proof fn lemma_key_code_injective(a: char, b: char)
    requires
        key_code(a) == key_code(b),
    ensures
        a == b,
{
}

/// The key bindings of one run, one binding per key. Each binding is stored
/// under its key's number, beside the key itself.
pub struct MappingTable {
    entries: BTreeMap<u32, (char, KeyMapping)>,
}

impl View for MappingTable {
    type V = Map<char, (int, Seq<char>)>;

    closed spec fn view(&self) -> Map<char, (int, Seq<char>)> {
        Map::new(
            |k: char| self.entries@.contains_key(key_code(k)),
            |k: char| self.entries@[key_code(k)].1@,
        )
    }
}

impl MappingTable {
    #[verifier::type_invariant]
    closed spec fn keys_match(&self) -> bool {
        forall|c: u32| #[trigger]
            self.entries@.contains_key(c) ==> key_code(self.entries@[c].0) == c
    }

    /// A table with no bindings.
    pub fn new() -> (r: MappingTable)
        ensures
            r@ == Map::<char, (int, Seq<char>)>::empty(),
    {
        let r = MappingTable { entries: BTreeMap::new() };
        assert(r@ =~= Map::<char, (int, Seq<char>)>::empty());
        r
    }

    /// Binds `key` to `mapping`, replacing any earlier binding of `key`.
    pub fn insert(&mut self, key: char, mapping: KeyMapping)
        ensures
            final(self)@ == old(self)@.insert(key, mapping@),
    {
        proof {
            use_type_invariant(&*self);
        }
        let ghost m = mapping@;
        let mut previous = MappingTable { entries: BTreeMap::new() };
        std::mem::swap(self, &mut previous);
        proof {
            use_type_invariant(&previous);
        }
        let MappingTable { mut entries } = previous;
        entries.insert(key as u32, (key, mapping));
        assert forall|k: char| #[trigger] key_code(k) == key_code(key) implies k == key by {
            lemma_key_code_injective(k, key);
        }
        *self = MappingTable { entries };
        assert(self@ =~= old(self)@.insert(key, m));
    }

    /// The binding of `key`, if there is one.
    pub fn get(&self, key: char) -> (r: Option<&KeyMapping>)
        ensures
            match r {
                Some(m) => self@.contains_key(key) && self@[key] == m@,
                None => !self@.contains_key(key),
            },
    {
        match self.entries.get(&(key as u32)) {
            Some(e) => Some(&e.1),
            None => None,
        }
    }

    /// Whether `key` is bound.
    pub fn contains_key(&self, key: char) -> (r: bool)
        ensures
            r == self@.contains_key(key),
    {
        self.entries.contains_key(&(key as u32))
    }

    /// Every binding as its key and label, in increasing order of key.
    pub fn legend(&self) -> (r: Vec<(char, String)>)
        ensures
            forall|i: int|
                0 <= i < r@.len() ==> self@.contains_key(#[trigger] r@[i].0) && self@[r@[i].0].1
                    == r@[i].1@,
            forall|i: int, j: int|
                0 <= i < j < r@.len() ==> key_code(r@[i].0) < key_code(r@[j].0),
            forall|k: char|
                #[trigger] self@.contains_key(k) ==> exists|i: int|
                    0 <= i < r@.len() && #[trigger] r@[i].0 == k,
    {
        proof {
            use_type_invariant(self);
        }
        let mut r: Vec<(char, String)> = Vec::new();
        let ghost all = spec_btree_map_iter(&self.entries).remaining();
        for e in it: self.entries.iter()
            invariant
                it.seq() == all,
                r@.len() == it.index(),
                forall|i: int|
                    0 <= i < r@.len() ==> (#[trigger] r@[i]).0 == it.seq()[i].1.0 && r@[i].1@
                        == it.seq()[i].1.1.label@,
        {
            let ghost before = r@;
            let label = e.1.1.label.clone();
            r.push((e.1.0, label));
            assert(forall|i: int| 0 <= i < before.len() ==> r@[i] == before[i]);
        }
        proof {
            let m = self.entries@;
            assert(r@.len() == all.len());
            assert forall|i: int| 0 <= i < r@.len() implies self@.contains_key(#[trigger] r@[i].0)
                && self@[r@[i].0].1 == r@[i].1@ by {
                assert(m.contains_key(*all[i].0) && m[*all[i].0] == *all[i].1);
                assert(key_code(r@[i].0) == *all[i].0);
            }
            let keys = all.map_values(|kv: (&u32, &(char, KeyMapping))| *kv.0);
            assert(increasing_seq(keys));
            assert forall|i: int, j: int| 0 <= i < j < r@.len() implies key_code(r@[i].0)
                < key_code(r@[j].0) by {
                assert(keys[i].cmp_spec(&keys[j]) is Less);
                assert(keys[i] == *all[i].0 && keys[j] == *all[j].0);
                assert(m.contains_key(*all[i].0) && m[*all[i].0] == *all[i].1);
                assert(m.contains_key(*all[j].0) && m[*all[j].0] == *all[j].1);
            }
            assert forall|k: char| #[trigger] self@.contains_key(k) implies exists|i: int|
                0 <= i < r@.len() && #[trigger] r@[i].0 == k by {
                let c = key_code(k);
                assert(m.contains_key(c));
                assert(all.contains((&c, &m[c])));
                let i = choose|i: int| 0 <= i < all.len() && all[i] == (&c, &m[c]);
                assert(key_code(r@[i].0) == c);
                lemma_key_code_injective(r@[i].0, k);
            }
        }
        r
    }
}

/// The smallest exit code a user binding may carry.
pub const MIN_USER_CODE: i32 = 64;

/// The largest exit code a user binding may carry.
pub const MAX_USER_CODE: i32 = 113;

/// Why a raw binding `<code>:<key>:<label>` was refused.
#[derive(Clone, Copy, Debug, PartialEq, Eq, Structural)]
pub enum MappingErrorKind {
    /// The entry does not have exactly three `:`-separated fields.
    Format,
    /// The key field is empty.
    Key,
    /// The code field is not a decimal `i32`.
    CodeNotNumeric,
    /// The code lies outside the range open to user bindings.
    CodeOutOfRange,
}

/// A refused raw binding, with the entry that caused it.
#[derive(Debug)]
pub struct MappingError {
    pub kind: MappingErrorKind,
    pub entry: String,
}

/// Positions of the `:` characters in `s`, in increasing order.
pub open spec fn colons(s: Seq<char>) -> Seq<int>
    decreases s.len(),
{
    if s.len() == 0 {
        Seq::empty()
    } else if s.last() == ':' {
        colons(s.drop_last()).push(s.len() - 1)
    } else {
        colons(s.drop_last())
    }
}

pub open spec fn is_digit(c: char) -> bool {
    '0' <= c && c <= '9'
}

/// The value of a run of decimal digits.
pub open spec fn digits_value(d: Seq<char>) -> int
    decreases d.len(),
{
    if d.len() == 0 {
        0
    } else {
        digits_value(d.drop_last()) * 10 + (d.last() as int - '0' as int)
    }
}

/// The integer that `s` writes in decimal: an optional `+` or `-` followed by
/// at least one digit and nothing else.
pub open spec fn decimal_value(s: Seq<char>) -> Option<int> {
    if s.len() > 0 && (s[0] == '+' || s[0] == '-') {
        let d = s.drop_first();
        if d.len() > 0 && forall|i: int| 0 <= i < d.len() ==> is_digit(#[trigger] d[i]) {
            if s[0] == '-' {
                Some(-digits_value(d))
            } else {
                Some(digits_value(d))
            }
        } else {
            None
        }
    } else if s.len() > 0 && forall|i: int| 0 <= i < s.len() ==> is_digit(#[trigger] s[i]) {
        Some(digits_value(s))
    } else {
        None
    }
}

/// The `i32` that `s` writes in decimal, if it writes one that fits.
pub open spec fn decimal_i32(s: Seq<char>) -> Option<i32> {
    match decimal_value(s) {
        Some(v) => if i32::MIN <= v <= i32::MAX {
            Some(v as i32)
        } else {
            None
        },
        None => None,
    }
}

/// Relies on `str::parse::<i32>`, which accepts exactly an optional sign followed
/// by decimal digits, and fails where the value does not fit.
#[verifier::external_body]
fn parse_i32(s: &str) -> (r: Option<i32>)
    ensures
        r == decimal_i32(s@),
{
    s.parse::<i32>().ok()
}

/// The code field of a three-field entry.
pub open spec fn code_field(s: Seq<char>) -> Seq<char> {
    s.subrange(0, colons(s)[0])
}

/// The key field of a three-field entry.
pub open spec fn key_field(s: Seq<char>) -> Seq<char> {
    s.subrange(colons(s)[0] + 1, colons(s)[1])
}

/// The label field of a three-field entry.
pub open spec fn label_field(s: Seq<char>) -> Seq<char> {
    s.subrange(colons(s)[1] + 1, s.len() as int)
}

/// What is wrong with the raw binding `s`, checked in this order: the field
/// count, the key, whether the code is a number, the code's range.
pub open spec fn entry_error(s: Seq<char>) -> Option<MappingErrorKind> {
    if colons(s).len() != 2 {
        Some(MappingErrorKind::Format)
    } else if key_field(s).len() == 0 {
        Some(MappingErrorKind::Key)
    } else if decimal_i32(code_field(s)) is None {
        Some(MappingErrorKind::CodeNotNumeric)
    } else if !(MIN_USER_CODE <= decimal_i32(code_field(s))->0 <= MAX_USER_CODE) {
        Some(MappingErrorKind::CodeOutOfRange)
    } else {
        None
    }
}

/// The key of a well-formed binding: the first character of its key field.
pub open spec fn entry_key(s: Seq<char>) -> char {
    key_field(s)[0]
}

/// The code and label of a well-formed binding.
pub open spec fn entry_value(s: Seq<char>) -> (int, Seq<char>) {
    (decimal_i32(code_field(s))->0 as int, label_field(s))
}

/// The first refused entry of `es`, with its position and why.
pub open spec fn first_error(es: Seq<Seq<char>>) -> Option<(int, MappingErrorKind)>
    decreases es.len(),
{
    if es.len() == 0 {
        None
    } else {
        match first_error(es.drop_last()) {
            Some(e) => Some(e),
            None => match entry_error(es.last()) {
                Some(k) => Some((es.len() - 1, k)),
                None => None,
            },
        }
    }
}

/// The bindings that the entries `es` make, a later entry replacing an
/// earlier one on the same key.
pub open spec fn user_bindings(es: Seq<Seq<char>>) -> Map<char, (int, Seq<char>)>
    decreases es.len(),
{
    if es.len() == 0 {
        Map::empty()
    } else {
        user_bindings(es.drop_last()).insert(entry_key(es.last()), entry_value(es.last()))
    }
}

pub open spec fn abort_label() -> Seq<char> {
    seq!['a', 'b', 'o', 'r', 't']
}

pub open spec fn continue_label() -> Seq<char> {
    seq!['c', 'o', 'n', 't', 'i', 'n', 'u', 'e']
}

/// `m` with the built-in bindings added last: `q` aborts with 1, `c` continues with 0.
pub open spec fn with_builtins(m: Map<char, (int, Seq<char>)>) -> Map<char, (int, Seq<char>)> {
    m.insert('q', (1, abort_label())).insert('c', (0, continue_label()))
}

/// What parsing the raw bindings `es` gives: the first refused entry, or the
/// full table.
pub open spec fn parse_outcome(es: Seq<Seq<char>>) -> Result<
    Map<char, (int, Seq<char>)>,
    (int, MappingErrorKind),
> {
    match first_error(es) {
        Some(e) => Err(e),
        None => Ok(with_builtins(user_bindings(es))),
    }
}

proof fn lemma_colons_ordered(s: Seq<char>)
    ensures
        forall|i: int|
            0 <= i < colons(s).len() ==> 0 <= #[trigger] colons(s)[i] < s.len() && s[colons(s)[i]]
                == ':',
        forall|i: int, j: int| 0 <= i < j < colons(s).len() ==> colons(s)[i] < colons(s)[j],
    decreases s.len(),
{
    if s.len() > 0 {
        let p = s.drop_last();
        lemma_colons_ordered(p);
        assert forall|i: int| 0 <= i < colons(p).len() implies s[#[trigger] colons(p)[i]] == ':' by {
            assert(s[colons(p)[i]] == p[colons(p)[i]]);
        }
        if s.last() == ':' {
            assert(colons(s) == colons(p).push(s.len() - 1));
        } else {
            assert(colons(s) == colons(p));
        }
    }
}

/// Positions of the `:` characters in `s`.
fn colon_positions(s: &str) -> (r: Vec<usize>)
    ensures
        r@.len() == colons(s@).len(),
        forall|i: int| 0 <= i < r@.len() ==> r@[i] as int == #[trigger] colons(s@)[i],
{
    let n = s.unicode_len();
    let mut r: Vec<usize> = Vec::new();
    let mut k: usize = 0;
    while k < n
        invariant
            n == s@.len(),
            k <= n,
            r@.len() == colons(s@.subrange(0, k as int)).len(),
            forall|i: int|
                0 <= i < r@.len() ==> r@[i] as int == #[trigger] colons(s@.subrange(0, k as int))[i],
        decreases n - k,
    {
        let c = s.get_char(k);
        assert(s@.subrange(0, k + 1).drop_last() =~= s@.subrange(0, k as int));
        if c == ':' {
            r.push(k);
        }
        k = k + 1;
    }
    assert(s@.subrange(0, n as int) =~= s@);
    r
}

/// Reads one raw binding `<code>:<key>:<label>` into its key and mapping.
fn parse_entry(s: &str) -> (r: Result<(char, KeyMapping), MappingErrorKind>)
    ensures
        match entry_error(s@) {
            Some(k) => r is Err && r->Err_0 == k,
            None => r is Ok && r->Ok_0.0 == entry_key(s@) && r->Ok_0.1@ == entry_value(s@),
        },
{
    let n = s.unicode_len();
    let pos = colon_positions(s);
    proof {
        lemma_colons_ordered(s@);
    }
    if pos.len() != 2 {
        return Err(MappingErrorKind::Format);
    }
    let first = pos[0];
    let second = pos[1];
    assert(first < second < n);
    if second - first < 2 {
        return Err(MappingErrorKind::Key);
    }
    let key = s.get_char(first + 1);
    let code = match parse_i32(s.substring_char(0, first)) {
        Some(c) => c,
        None => {
            return Err(MappingErrorKind::CodeNotNumeric);
        },
    };
    if code > MAX_USER_CODE || code < MIN_USER_CODE {
        return Err(MappingErrorKind::CodeOutOfRange);
    }
    let label = String::from_str(s.substring_char(second + 1, n));
    Ok((key, KeyMapping { ret_code: code, label }))
}

/// The character sequences of the strings `v`.
pub open spec fn raw_views(v: Seq<String>) -> Seq<Seq<char>> {
    v.map_values(|s: String| s@)
}

/// Builds the key bindings from raw entries `<code>:<key>:<label>`, then adds
/// `q` (abort, 1) and `c` (continue, 0) over them. The first refused entry
/// fails the whole parse.
pub fn parse_mappings(raw_mappings: Vec<String>) -> (r: Result<MappingTable, MappingError>)
    ensures
        match parse_outcome(raw_views(raw_mappings@)) {
            Ok(m) => r is Ok && r->Ok_0@ == m,
            Err((i, k)) => r is Err && r->Err_0.kind == k && r->Err_0.entry@ == raw_mappings@[i]@,
        },
{
    let ghost es = raw_views(raw_mappings@);
    let mut mappings = MappingTable::new();
    let mut i: usize = 0;
    while i < raw_mappings.len()
        invariant
            es == raw_views(raw_mappings@),
            i <= raw_mappings.len(),
            first_error(es.subrange(0, i as int)) is None,
            mappings@ == user_bindings(es.subrange(0, i as int)),
        decreases raw_mappings.len() - i,
    {
        let entry = &raw_mappings[i];
        assert(es.subrange(0, i + 1).drop_last() =~= es.subrange(0, i as int));
        assert(es.subrange(0, i + 1).last() == entry@);
        match parse_entry(entry.as_str()) {
            Ok((key, mapping)) => {
                mappings.insert(key, mapping);
            },
            Err(kind) => {
                proof {
                    lemma_first_error_stays(es, i as int + 1);
                }
                return Err(MappingError { kind, entry: entry.clone() });
            },
        }
        i = i + 1;
    }
    assert(es.subrange(0, i as int) =~= es);
    let abort = String::from_str("abort");
    let cont = String::from_str("continue");
    proof {
        reveal_strlit("abort");
        reveal_strlit("continue");
        assert(abort@ =~= abort_label());
        assert(cont@ =~= continue_label());
    }
    mappings.insert('q', KeyMapping { ret_code: 1, label: abort });
    mappings.insert('c', KeyMapping { ret_code: 0, label: cont });
    Ok(mappings)
}

/// Once a prefix of `es` holds a refused entry, that is the first refused entry of `es`.
proof fn lemma_first_error_stays(es: Seq<Seq<char>>, n: int)
    requires
        0 <= n <= es.len(),
        first_error(es.subrange(0, n)) is Some,
    ensures
        first_error(es) == first_error(es.subrange(0, n)),
    decreases es.len() - n,
{
    if n < es.len() {
        assert(es.subrange(0, n + 1).drop_last() =~= es.subrange(0, n));
        lemma_first_error_stays(es, n + 1);
    } else {
        assert(es.subrange(0, n) =~= es);
    }
}

proof fn lemma_colons_append_plain(a: Seq<char>, b: Seq<char>)
    requires
        forall|i: int| 0 <= i < b.len() ==> b[i] != ':',
    ensures
        colons(a + b) == colons(a),
    decreases b.len(),
{
    if b.len() == 0 {
        assert(a + b =~= a);
    } else {
        assert((a + b).drop_last() =~= a + b.drop_last());
        assert((a + b).last() == b.last());
        lemma_colons_append_plain(a, b.drop_last());
    }
}

/// Every entry before the first refused one is accepted, so with no refused
/// entry at all the prefix check passes everywhere.
proof fn lemma_no_error_prefix(es: Seq<Seq<char>>, n: int)
    requires
        0 <= n <= es.len(),
        forall|i: int| 0 <= i < n ==> entry_error(#[trigger] es[i]) is None,
    ensures
        first_error(es.subrange(0, n)) is None,
    decreases n,
{
    if n > 0 {
        assert(es.subrange(0, n).drop_last() =~= es.subrange(0, n - 1));
        lemma_no_error_prefix(es, n - 1);
    }
}

/// A refused entry fails the whole parse; when every entry before it is
/// accepted, the failure names it and its reason.
pub proof fn lemma_refused_entry_fails_parse(es: Seq<Seq<char>>, i: int)
    requires
        0 <= i < es.len(),
        entry_error(es[i]) is Some,
    ensures
        parse_outcome(es) is Err,
        first_error(es.subrange(0, i)) is None ==> parse_outcome(es) == Err::<
            Map<char, (int, Seq<char>)>,
            (int, MappingErrorKind),
        >((i, entry_error(es[i])->0)),
{
    assert(es.subrange(0, i + 1).drop_last() =~= es.subrange(0, i));
    assert(es.subrange(0, i + 1).last() == es[i]);
    lemma_first_error_stays(es, i + 1);
}

/// A binding `<code>:<key>:<label>` whose code is a decimal number in the user
/// range, whose key is one character and whose label holds no `:` parses, and
/// binds its key to exactly its code and label (unless the key is one that a
/// built-in binding takes over).
pub proof fn lemma_valid_entry_parses(code_text: Seq<char>, key: char, label: Seq<char>)
    requires
        decimal_i32(code_text) is Some,
        MIN_USER_CODE <= decimal_i32(code_text)->0 <= MAX_USER_CODE,
        key != ':',
        forall|i: int| 0 <= i < label.len() ==> label[i] != ':',
        key != 'q',
        key != 'c',
    ensures
        ({
            let s = code_text + seq![':', key, ':'] + label;
            &&& parse_outcome(seq![s]) is Ok
            &&& parse_outcome(seq![s])->Ok_0.contains_key(key)
            &&& parse_outcome(seq![s])->Ok_0[key] == (decimal_i32(code_text)->0 as int, label)
        }),
{
    let s1 = code_text + seq![':', key, ':'];
    let s = s1 + label;
    assert forall|i: int| 0 <= i < code_text.len() implies code_text[i] != ':' by {
        if code_text[0] == '+' || code_text[0] == '-' {
            if i > 0 {
                assert(code_text[i] == code_text.drop_first()[i - 1]);
            }
        }
    }
    lemma_colons_append_plain(Seq::empty(), code_text);
    assert(Seq::<char>::empty() + code_text =~= code_text);
    let n: int = code_text.len() as int;
    assert(colons(Seq::<char>::empty()) =~= Seq::<int>::empty());
    let a1 = code_text.push(':');
    let a2 = a1.push(key);
    let a3 = a2.push(':');
    assert(a1.drop_last() =~= code_text);
    assert(a2.drop_last() =~= a1);
    assert(a3.drop_last() =~= a2);
    assert(colons(a1) == colons(code_text).push(n));
    assert(colons(a2) == colons(a1));
    assert(colons(a3) == colons(a2).push(n + 2));
    assert(s1 =~= a3);
    assert(colons(s1) =~= seq![n, n + 2]);
    lemma_colons_append_plain(s1, label);
    assert(code_field(s) =~= code_text);
    assert(key_field(s) =~= seq![key]);
    assert(label_field(s) =~= label);
    assert(entry_error(s) is None);
    let es = seq![s];
    assert(es.drop_last() =~= Seq::<Seq<char>>::empty());
    assert(es.last() == s);
    assert(first_error(Seq::<Seq<char>>::empty()) is None);
    assert(first_error(es) is None);
    assert(user_bindings(Seq::<Seq<char>>::empty()) == Map::<char, (int, Seq<char>)>::empty());
    assert(user_bindings(es) == Map::<char, (int, Seq<char>)>::empty().insert(key, entry_value(s)));
}

/// A three-field binding whose code is a number outside the user range fails
/// the parse of any list that holds it; when it is the first refused entry, the
/// failure is a range error on it.
pub proof fn lemma_code_out_of_range_refused(es: Seq<Seq<char>>, i: int)
    requires
        0 <= i < es.len(),
        colons(es[i]).len() == 2,
        key_field(es[i]).len() > 0,
        decimal_i32(code_field(es[i])) is Some,
        !(MIN_USER_CODE <= decimal_i32(code_field(es[i]))->0 <= MAX_USER_CODE),
    ensures
        parse_outcome(es) is Err,
        first_error(es.subrange(0, i)) is None ==> parse_outcome(es) == Err::<
            Map<char, (int, Seq<char>)>,
            (int, MappingErrorKind),
        >((i, MappingErrorKind::CodeOutOfRange)),
{
    lemma_refused_entry_fails_parse(es, i);
}

/// A binding without exactly three `:`-separated fields fails the parse of any
/// list that holds it; when it is the first refused entry, the failure is a
/// format error on it.
pub proof fn lemma_wrong_field_count_refused(es: Seq<Seq<char>>, i: int)
    requires
        0 <= i < es.len(),
        colons(es[i]).len() + 1 != 3,
    ensures
        parse_outcome(es) is Err,
        first_error(es.subrange(0, i)) is None ==> parse_outcome(es) == Err::<
            Map<char, (int, Seq<char>)>,
            (int, MappingErrorKind),
        >((i, MappingErrorKind::Format)),
{
    lemma_refused_entry_fails_parse(es, i);
}

/// Whatever accepted bindings are given, none of them included, the parsed
/// table binds `q` to (1, "abort") and `c` to (0, "continue").
pub proof fn lemma_builtins_always_present(es: Seq<Seq<char>>)
    requires
        forall|i: int| 0 <= i < es.len() ==> entry_error(#[trigger] es[i]) is None,
    ensures
        parse_outcome(es) is Ok,
        parse_outcome(es)->Ok_0.contains_key('q'),
        parse_outcome(es)->Ok_0['q'] == (1int, abort_label()),
        parse_outcome(es)->Ok_0.contains_key('c'),
        parse_outcome(es)->Ok_0['c'] == (0int, continue_label()),
{
    lemma_no_error_prefix(es, es.len() as int);
    assert(es.subrange(0, es.len() as int) =~= es);
}

} // verus!
