//! Storage of pinned transactions, and the encodings of its keys and values.
use vstd::prelude::*;
use vstd::string::StrSliceExecFns;
use crate::indexstorage::{bytes_of_texts, copy_strings, texts};
use crate::strmap::StrMap;

verus! {

pub const ADDRESS_INDEX_COLUMN: &'static str = "ADDRESS_INDEX_COLUMN";
pub const TAG_INDEX_COLUMN: &'static str = "TAG_INDEX_COLUMN";
pub const BUNDLE_INDEX_COLUMN: &'static str = "BUNDLE_INDEX_COLUMN";
pub const APPROVEE_INDEX_COLUMN: &'static str = "APPROVEE_INDEX_COLUMN";
pub const PAGING_INDEX_COLUMN: &'static str = "PAGING_INDEX_COLUMN";
pub const TX_COLUMN: &'static str = "TX_COLUMN";

/// Storage of transaction trytes with indexes on address, tag, bundle and approvee.
pub trait TXPersistence {
    fn store_txs(&mut self, pairs: Vec<(String, String)>) -> Result<(), String>;

    /// The trytes of the keys, and the positions of the keys not found.
    fn get_txs(&self, keys: Vec<String>) -> Result<(Vec<String>, Vec<usize>), String>;

    fn find_bundle(&self, keys: Vec<String>) -> Result<Vec<String>, String>;

    fn find_tag(&self, keys: Vec<String>) -> Result<Vec<String>, String>;

    fn find_address(&self, keys: Vec<String>) -> Result<Vec<String>, String>;

    fn find_approvees(&self, keys: Vec<String>) -> Result<Vec<String>, String>;
}

/// The `i`-th piece of `bytes` cut into pieces of `size` (the last one may be shorter).
pub open spec fn chunk(bytes: Seq<u8>, size: nat, i: int) -> Seq<u8> {
    let end = if (i + 1) * size < bytes.len() {
        (i + 1) * size
    } else {
        bytes.len() as int
    };
    bytes.subrange(i * size, end)
}

/// The number of pieces of `size` that `len` bytes are cut into.
pub open spec fn chunk_count(len: nat, size: nat) -> nat {
    ((len + size - 1) / (size as int)) as nat
}

/// Calls `String::from_utf8`: the text of the bytes when they are UTF-8.
#[verifier::external_body]
fn string_from_utf8(bytes: Vec<u8>) -> (r: Option<String>)
    ensures
        r is Some <==> vstd::utf8::valid_utf8(bytes@),
        r is Some ==> vstd::utf8::encode_utf8(r->0@) == bytes@,
{
    String::from_utf8(bytes).ok()
}

/// Cuts stored bytes into pieces of `chunk_size` and reads each as text.
pub fn to_vec(bytes: Vec<u8>, chunk_size: usize) -> (r: Vec<String>)
    requires
        chunk_size > 0,
        forall|i: int|
            0 <= i < chunk_count(bytes@.len(), chunk_size as nat) ==> vstd::utf8::valid_utf8(
                #[trigger] chunk(bytes@, chunk_size as nat, i),
            ),
    ensures
        r@.len() == chunk_count(bytes@.len(), chunk_size as nat),
        forall|i: int|
            0 <= i < r@.len() ==> vstd::utf8::encode_utf8(#[trigger] r@[i]@) == chunk(
                bytes@,
                chunk_size as nat,
                i,
            ),
{
    let mut r: Vec<String> = Vec::new();
    let mut start: usize = 0;
    let ghost size = chunk_size as nat;
    let ghost len = bytes@.len();
    assert(r@.len() * size == 0);
    while start < bytes.len()
        invariant
            chunk_size > 0,
            size == chunk_size,
            len == bytes@.len(),
            start == (if r@.len() * size < len {
                r@.len() * size
            } else {
                len
            }),
            r@.len() == 0 || (r@.len() - 1) * size < len,
            forall|i: int|
                0 <= i < chunk_count(len, size) ==> vstd::utf8::valid_utf8(
                    #[trigger] chunk(bytes@, size, i),
                ),
            forall|i: int|
                0 <= i < r@.len() ==> vstd::utf8::encode_utf8(#[trigger] r@[i]@) == chunk(
                    bytes@,
                    size,
                    i,
                ),
        decreases len - start,
    {
        let ghost n = r@.len() as int;
        let end: usize = if bytes.len() - start > chunk_size {
            start + chunk_size
        } else {
            bytes.len()
        };
        let mut piece: Vec<u8> = Vec::new();
        let mut j = start;
        while j < end
            invariant
                start <= j <= end,
                end <= bytes@.len(),
                piece@ == bytes@.subrange(start as int, j as int),
            decreases end - j,
        {
            piece.push(bytes[j]);
            j = j + 1;
            proof {
                assert(bytes@.subrange(start as int, j as int) =~= bytes@.subrange(
                    start as int,
                    j - 1,
                ).push(bytes@[j - 1]));
            }
        }
        proof {
            assert(start == n * size);
            assert((n + 1) * size == n * size + size) by (nonlinear_arith);
            assert(piece@ == chunk(bytes@, size, n));
            assert(n < chunk_count(len, size)) by (nonlinear_arith)
                requires
                    n * size < len,
                    size > 0,
                    n >= 0,
                    chunk_count(len, size) == (len + size - 1) / (size as int),
            ;
        }
        let text = string_from_utf8(piece).unwrap();
        r.push(text);
        start = end;
    }
    proof {
        let n = r@.len() as int;
        assert(n * size >= len);
        assert(n == chunk_count(len, size)) by (nonlinear_arith)
            requires
                n * size >= len,
                n == 0 || (n - 1) * size < len,
                size > 0,
                n >= 0,
                chunk_count(len, size) == (len + size - 1) / (size as int),
        ;
    }
    r
}

/// When every text has `size` bytes, their bytes cut into pieces of `size`
/// give the bytes of each text in turn.
pub proof fn lemma_chunks_of_texts(v: Seq<Seq<char>>, size: nat)
    requires
        size > 0,
        forall|i: int| 0 <= i < v.len() ==> (#[trigger] vstd::utf8::encode_utf8(v[i])).len() == size,
    ensures
        bytes_of_texts(v).len() == v.len() * size,
        forall|i: int| 0 <= i < v.len() ==> #[trigger] chunk(bytes_of_texts(v), size, i) == vstd::utf8::encode_utf8(v[i]),
    decreases v.len(),
{
    if v.len() > 0 {
        let w = v.drop_last();
        assert forall|i: int| 0 <= i < w.len() implies (#[trigger] vstd::utf8::encode_utf8(w[i])).len() == size by {
            assert(w[i] == v[i]);
        }
        lemma_chunks_of_texts(w, size);
        let b = bytes_of_texts(v);
        let bw = bytes_of_texts(w);
        let n = v.len() as int;
        assert(b == bw + vstd::utf8::encode_utf8(v.last()));
        assert((n - 1) * size + size == n * size) by (nonlinear_arith);
        assert forall|i: int| 0 <= i < v.len() implies #[trigger] chunk(b, size, i) == vstd::utf8::encode_utf8(v[i]) by {
            assert((i + 1) * size == i * size + size) by (nonlinear_arith);
            if i < n - 1 {
                assert((i + 1) * size <= (n - 1) * size) by (nonlinear_arith)
                    requires
                        i + 1 <= n - 1,
                        size > 0,
                ;
                assert(i * size >= 0) by (nonlinear_arith)
                    requires
                        i >= 0,
                ;
                assert(chunk(bw, size, i) == vstd::utf8::encode_utf8(w[i]));
                assert(w[i] == v[i]);
                assert(chunk(b, size, i) =~= chunk(bw, size, i));
            } else {
                assert(i == n - 1);
                assert(chunk(b, size, i) =~= vstd::utf8::encode_utf8(v.last()));
            }
        }
    }
}

/// Reading back what was written: when every string is `size` bytes long,
/// cutting their bytes (as `to_byte_vec` writes them) into pieces of
/// `size` is allowed and gives back exactly those strings.
pub proof fn lemma_read_back_written(v: Seq<Seq<char>>, size: nat, r: Seq<Seq<char>>)
    requires
        size > 0,
        forall|i: int| 0 <= i < v.len() ==> (#[trigger] vstd::utf8::encode_utf8(v[i])).len() == size,
        r.len() == chunk_count(bytes_of_texts(v).len(), size),
        forall|i: int| 0 <= i < r.len() ==> vstd::utf8::encode_utf8(#[trigger] r[i]) == chunk(bytes_of_texts(v), size, i),
    ensures
        forall|i: int|
            0 <= i < chunk_count(bytes_of_texts(v).len(), size) ==> vstd::utf8::valid_utf8(
                #[trigger] chunk(bytes_of_texts(v), size, i),
            ),
        r == v,
{
    lemma_chunks_of_texts(v, size);
    let n = v.len() as int;
    assert(chunk_count(bytes_of_texts(v).len(), size) == n) by (nonlinear_arith)
        requires
            bytes_of_texts(v).len() == n * size,
            size > 0,
            n >= 0,
            chunk_count(bytes_of_texts(v).len(), size) == ((bytes_of_texts(v).len() + size - 1) / (size as int)) as nat,
    ;
    assert forall|i: int| 0 <= i < n implies vstd::utf8::valid_utf8(#[trigger] chunk(bytes_of_texts(v), size, i)) by {
        vstd::utf8::encode_utf8_valid_utf8(v[i]);
    }
    assert forall|i: int| 0 <= i < n implies r[i] == v[i] by {
        vstd::utf8::encode_utf8_decode_utf8(v[i]);
        vstd::utf8::encode_utf8_decode_utf8(r[i]);
    }
    assert(r =~= v);
}

/// The bytes of every string, one after the other.
pub fn to_byte_vec(bv: &Vec<String>) -> (r: Vec<u8>)
    ensures
        r@ == bytes_of_texts(texts(bv@)),
{
    let mut to_return: Vec<u8> = Vec::new();
    let mut i: usize = 0;
    while i < bv.len()
        invariant
            i <= bv@.len(),
            to_return@ == bytes_of_texts(texts(bv@.subrange(0, i as int))),
        decreases bv@.len() - i,
    {
        crate::indexstorage::append_bytes(&mut to_return, &bv[i]);
        proof {
            assert(texts(bv@.subrange(0, i + 1)).drop_last() =~= texts(bv@.subrange(0, i as int)));
        }
        i = i + 1;
    }
    proof {
        assert(bv@.subrange(0, bv@.len() as int) =~= bv@);
    }
    to_return
}

/// The decimal digits of a natural number, most significant first.
pub open spec fn decimal_digits(n: nat) -> Seq<char>
    decreases n,
{
    if n < 10 {
        seq![(48 + n) as char]
    } else {
        decimal_digits(n / 10).push((48 + n % 10) as char)
    }
}

/// The decimal text of an integer.
pub open spec fn decimal_of(n: int) -> Seq<char> {
    if n < 0 {
        seq!['-'] + decimal_digits((-n) as nat)
    } else {
        decimal_digits(n as nat)
    }
}

/// The decimal text of `n`.
pub fn decimal_string(n: i64) -> (r: String)
    ensures
        r@ == decimal_of(n as int),
{
    let mut m: u64 = if n >= 0 {
        n as u64
    } else if n == i64::MIN {
        0x8000_0000_0000_0000u64
    } else {
        (-n) as u64
    };
    let ghost total = m as nat;
    let mut digits: Vec<char> = Vec::new();
    loop
        invariant
            m <= total,
            decimal_digits(total) == decimal_digits(m as nat) + digits@.reverse(),
        ensures
            m < 10,
            decimal_digits(total) == decimal_digits(m as nat) + digits@.reverse(),
        decreases m,
    {
        if m < 10 {
            break;
        }
        let d: char = digit_char((m % 10) as u8);
        proof {
            assert(decimal_digits(m as nat) == decimal_digits((m / 10) as nat).push(d));
            assert(digits@.push(d).reverse() =~= seq![d] + digits@.reverse());
        }
        digits.push(d);
        m = m / 10;
    }
    let mut result = String::new();
    if n < 0 {
        crate::pathway::push_char(&mut result, '-');
    }
    crate::pathway::push_char(&mut result, digit_char(m as u8));
    let ghost sign: Seq<char> = if n < 0 {
        seq!['-']
    } else {
        Seq::empty()
    };
    let mut i: usize = digits.len();
    proof {
        assert(digits@.subrange(i as int, digits@.len() as int).reverse() =~= Seq::<char>::empty());
        assert(result@ =~= sign + decimal_digits(m as nat) + digits@.subrange(
            i as int,
            digits@.len() as int,
        ).reverse());
    }
    while i > 0
        invariant
            i <= digits@.len(),
            result@ == sign + decimal_digits(m as nat) + digits@.subrange(
                i as int,
                digits@.len() as int,
            ).reverse(),
        decreases i,
    {
        i = i - 1;
        crate::pathway::push_char(&mut result, digits[i]);
        proof {
            assert(digits@.subrange(i as int, digits@.len() as int).reverse() =~= digits@.subrange(
                i + 1,
                digits@.len() as int,
            ).reverse().push(digits@[i as int]));
        }
    }
    proof {
        assert(digits@.subrange(0, digits@.len() as int) =~= digits@);
        assert(result@ =~= sign + decimal_digits(total));
        if n < 0 {
            assert(total == -n);
        }
    }
    result
}

/// The character of a decimal digit.
fn digit_char(d: u8) -> (r: char)
    requires
        d < 10,
    ensures
        r == (48 + d) as char,
{
    if d == 0 {
        '0'
    } else if d == 1 {
        '1'
    } else if d == 2 {
        '2'
    } else if d == 3 {
        '3'
    } else if d == 4 {
        '4'
    } else if d == 5 {
        '5'
    } else if d == 6 {
        '6'
    } else if d == 7 {
        '7'
    } else if d == 8 {
        '8'
    } else {
        '9'
    }
}

/// The key of page `page` of an index entry: the id itself for the first
/// page, else the page number, `_` and the id.
pub open spec fn page_ref_spec(page: int, id: Seq<char>) -> Seq<char> {
    if page == 0 {
        id
    } else {
        decimal_of(page) + seq!['_'] + id
    }
}

pub fn page_ref(page: i64, id: String) -> (r: String)
    ensures
        r@ == page_ref_spec(page as int, id@),
{
    if page == 0 {
        return id;
    }
    let mut r = decimal_string(page);
    crate::pathway::push_char(&mut r, '_');
    r.append(id.as_str());
    r
}

/// The index entries of stored trytes: tag, address, bundle, trunk and branch.
pub struct IndexFields {
    pub tag: String,
    pub address: String,
    pub bundle: String,
    pub trunk_transaction: String,
    pub branch_transaction: String,
}

/// The fields of transaction trytes that the indexes use.
pub fn index_fields(trytes: &str) -> (r: IndexFields)
    requires
        vstd::utf8::is_ascii_chars(trytes@),
        trytes@.len() >= 2619,
    ensures
        r.tag@ == trytes@.subrange(2592, 2619),
        r.address@ == trytes@.subrange(2187, 2268),
        r.bundle@ == trytes@.subrange(2349, 2430),
        r.trunk_transaction@ == trytes@.subrange(2430, 2511),
        r.branch_transaction@ == trytes@.subrange(2511, 2592),
{
    IndexFields {
        tag: trytes.substring_ascii(2592, 2619).to_owned(),
        address: trytes.substring_ascii(2187, 2268).to_owned(),
        bundle: trytes.substring_ascii(2349, 2430).to_owned(),
        trunk_transaction: trytes.substring_ascii(2430, 2511).to_owned(),
        branch_transaction: trytes.substring_ascii(2511, 2592).to_owned(),
    }
}

/// References an index entry holds before it pages.
pub const PAGE_SIZE: usize = 50;

/// Where a new reference of an index entry goes: `None` for the entry
/// itself while it holds fewer than 50; else the current page `counter`,
/// or (`true`) a new page `counter + 1` once that one holds 50.
pub fn paging_slot(root_len: usize, counter: i64, page_len: usize) -> (r: Option<(i64, bool)>)
    requires
        counter < i64::MAX,
    ensures
        root_len < 50 ==> r is None,
        root_len >= 50 && page_len < 50 ==> r == Some((counter, false)),
        root_len >= 50 && page_len >= 50 ==> r == Some(((counter + 1) as i64, true)),
{
    if root_len < PAGE_SIZE {
        None
    } else if page_len >= PAGE_SIZE {
        Some((counter + 1, true))
    } else {
        Some((counter, false))
    }
}

/// The reference lists of index entries, as texts.
pub open spec fn lists_view(m: Map<Seq<char>, Vec<String>>) -> Map<Seq<char>, Seq<Seq<char>>> {
    m.map_values(|v: Vec<String>| texts(v@))
}

/// The stored list of an entry (empty when none is stored).
pub open spec fn list_of(m: Map<Seq<char>, Seq<Seq<char>>>, k: Seq<char>) -> Seq<Seq<char>> {
    if m.dom().contains(k) {
        m[k]
    } else {
        Seq::empty()
    }
}

/// The current page of an entry (1 when none is stored).
pub open spec fn page_of(p: Map<Seq<char>, i64>, k: Seq<char>) -> int {
    if p.dom().contains(k) {
        p[k] as int
    } else {
        1
    }
}

/// Adding `key` to the paged entry `k`: to the entry itself while it holds
/// fewer than 50; else to its current page, or to a new page once that
/// one holds 50. The lists and pages read are kept to be written back.
pub open spec fn paged_add(
    m: Map<Seq<char>, Seq<Seq<char>>>,
    p: Map<Seq<char>, i64>,
    k: Seq<char>,
    key: Seq<char>,
) -> (Map<Seq<char>, Seq<Seq<char>>>, Map<Seq<char>, i64>) {
    if list_of(m, k).len() >= 50 {
        let page = page_of(p, k);
        let r = page_ref_spec(page, k);
        let m1 = m.insert(r, list_of(m, r));
        if list_of(m, r).len() >= 50 {
            (m1.insert(page_ref_spec(page + 1, k), seq![key]), p.insert(k, (page + 1) as i64))
        } else {
            (m1.insert(r, list_of(m, r).push(key)), p.insert(k, page as i64))
        }
    } else {
        (m.insert(k, list_of(m, k).push(key)), p)
    }
}

/// Every page number is below `bound`.
pub open spec fn pages_below(p: Map<Seq<char>, i64>, bound: int) -> bool {
    forall|k: Seq<char>| #[trigger] p.dom().contains(k) ==> p[k] < bound
}

fn get_list(m: &StrMap<Vec<String>>, k: &String) -> (r: Vec<String>)
    ensures
        texts(r@) == list_of(lists_view(m@), k@),
{
    match m.get(k) {
        Some(v) => {
            let c = copy_strings(v);
            proof {
                assert(texts(c@) =~= texts(v@));
            }
            c
        },
        None => {
            let e: Vec<String> = Vec::new();
            proof {
                assert(texts(e@) =~= Seq::<Seq<char>>::empty());
            }
            e
        },
    }
}

fn set_list(m: &mut StrMap<Vec<String>>, k: String, v: Vec<String>)
    ensures
        lists_view(final(m)@) == lists_view(old(m)@).insert(k@, texts(v@)),
{
    let ghost kv = k@;
    let ghost tv = texts(v@);
    m.insert(k, v);
    proof {
        assert(lists_view(m@) =~= lists_view(old(m)@).insert(kv, tv));
    }
}

fn add_paged(m: &mut StrMap<Vec<String>>, p: &mut StrMap<i64>, k: &String, key: &String)
    requires
        pages_below(old(p)@, i64::MAX as int - 1),
    ensures
        (lists_view(final(m)@), final(p)@) == paged_add(lists_view(old(m)@), old(p)@, k@, key@),
        forall|b: int| 2 <= b && pages_below(old(p)@, b) ==> pages_below(final(p)@, b + 1),
{
    let mut list = get_list(m, k);
    if list.len() >= PAGE_SIZE {
        let page: i64 = match p.get(k) {
            Some(v) => *v,
            None => 1,
        };
        let r = page_ref(page, k.clone());
        let page_list = get_list(m, &r);
        let full = page_list.len() >= PAGE_SIZE;
        let ghost lr = texts(page_list@);
        set_list(m, r.clone(), page_list);
        if full {
            let r2 = page_ref(page + 1, k.clone());
            let mut fresh: Vec<String> = Vec::new();
            fresh.push(key.clone());
            proof {
                assert(texts(fresh@) =~= seq![key@]);
            }
            set_list(m, r2, fresh);
            p.insert(k.clone(), page + 1);
        } else {
            let mut pl = get_list(m, &r);
            proof {
                assert(texts(pl@) == lr);
            }
            let ghost before = pl@;
            pl.push(key.clone());
            proof {
                assert(texts(pl@) =~= texts(before).push(key@));
            }
            set_list(m, r, pl);
            p.insert(k.clone(), page);
        }
    } else {
        let ghost before = list@;
        list.push(key.clone());
        proof {
            assert(texts(list@) =~= texts(before).push(key@));
        }
        set_list(m, k.clone(), list);
    }
}

/// The index lists and page numbers that storing transactions updates.
pub struct IndexLists {
    pub address: StrMap<Vec<String>>,
    pub tag: StrMap<Vec<String>>,
    pub bundle: StrMap<Vec<String>>,
    pub approvee: StrMap<Vec<String>>,
    pub paging: StrMap<i64>,
}

/// The abstract index state: every list by entry, and the pages.
pub struct IndexModel {
    pub address: Map<Seq<char>, Seq<Seq<char>>>,
    pub tag: Map<Seq<char>, Seq<Seq<char>>>,
    pub bundle: Map<Seq<char>, Seq<Seq<char>>>,
    pub approvee: Map<Seq<char>, Seq<Seq<char>>>,
    pub paging: Map<Seq<char>, i64>,
}

impl IndexLists {
    pub open spec fn model(&self) -> IndexModel {
        IndexModel {
            address: lists_view(self.address@),
            tag: lists_view(self.tag@),
            bundle: lists_view(self.bundle@),
            approvee: lists_view(self.approvee@),
            paging: self.paging@,
        }
    }
}

/// The index after one new transaction `key` with trytes `t`: its address
/// and tag (both paged), its bundle, and its trunk and branch as approvees.
pub open spec fn index_one(s: IndexModel, key: Seq<char>, t: Seq<char>) -> IndexModel {
    let a = paged_add(s.address, s.paging, t.subrange(2187, 2268), key);
    let g = paged_add(s.tag, a.1, t.subrange(2592, 2619), key);
    let trunk = t.subrange(2430, 2511);
    let branch = t.subrange(2511, 2592);
    let ap1 = s.approvee.insert(trunk, list_of(s.approvee, trunk).push(key));
    IndexModel {
        address: a.0,
        tag: g.0,
        bundle: s.bundle.insert(t.subrange(2349, 2430), list_of(s.bundle, t.subrange(2349, 2430)).push(key)),
        approvee: ap1.insert(branch, list_of(ap1, branch).push(key)),
        paging: g.1,
    }
}

/// The index after the first `n` pairs, those not stored already.
pub open spec fn index_all(s: IndexModel, pairs: Seq<(String, String)>, stored: Seq<bool>, n: int) -> IndexModel
    decreases n,
{
    if n <= 0 {
        s
    } else {
        let prev = index_all(s, pairs, stored, n - 1);
        if stored[n - 1] {
            prev
        } else {
            index_one(prev, pairs[n - 1].0@, pairs[n - 1].1@)
        }
    }
}

fn push_list(m: &mut StrMap<Vec<String>>, k: &String, key: &String)
    ensures
        lists_view(final(m)@) == lists_view(old(m)@).insert(k@, list_of(lists_view(old(m)@), k@).push(key@)),
{
    let mut list = get_list(m, k);
    let ghost before = list@;
    list.push(key.clone());
    proof {
        assert(texts(list@) =~= texts(before).push(key@));
    }
    set_list(m, k.clone(), list);
}

/// Plans the index writes of storing transaction trytes: every pair
/// (hash, trytes) not `stored` already is added to the lists of its
/// address and tag (paged at 50 references), its bundle, and its trunk
/// and branch. `lists` holds the stored lists and pages of the entries
/// involved (an entry not held counts as empty, a page not held as 1).
pub fn plan_store_txs(pairs: &Vec<(String, String)>, stored: &Vec<bool>, lists: &mut IndexLists)
    requires
        stored@.len() == pairs@.len(),
        2 * pairs@.len() < i64::MAX - 4,
        forall|i: int| 0 <= i < pairs@.len() && !stored@[i] ==> vstd::utf8::is_ascii_chars(
            (#[trigger] pairs@[i]).1@,
        ) && pairs@[i].1@.len() >= 2619,
        pages_below(old(lists).paging@, i64::MAX - 2 * pairs@.len()),
    ensures
        final(lists).model() == index_all(old(lists).model(), pairs@, stored@, pairs@.len() as int),
{
    let mut i: usize = 0;
    let ghost s0 = lists.model();
    while i < pairs.len()
        invariant
            i <= pairs@.len(),
            stored@.len() == pairs@.len(),
            2 * pairs@.len() < i64::MAX - 4,
            forall|q: int| 0 <= q < pairs@.len() && !stored@[q] ==> vstd::utf8::is_ascii_chars(
                (#[trigger] pairs@[q]).1@,
            ) && pairs@[q].1@.len() >= 2619,
            pages_below(lists.paging@, i64::MAX - 2 * pairs@.len() + 2 * i),
            lists.model() == index_all(s0, pairs@, stored@, i as int),
        decreases pairs@.len() - i,
    {
        let pair = &pairs[i];
        if !stored[i] {
            let f = index_fields(pair.1.as_str());
            let ghost b1 = i64::MAX - 2 * pairs@.len() + 2 * i;
            add_paged(&mut lists.address, &mut lists.paging, &f.address, &pair.0);
            add_paged(&mut lists.tag, &mut lists.paging, &f.tag, &pair.0);
            proof {
                assert(pages_below(lists.paging@, b1 + 2));
            }
            push_list(&mut lists.bundle, &f.bundle, &pair.0);
            push_list(&mut lists.approvee, &f.trunk_transaction, &pair.0);
            push_list(&mut lists.approvee, &f.branch_transaction, &pair.0);
        } else {
            proof {
                let b1 = i64::MAX - 2 * pairs@.len() + 2 * i;
                assert forall|k: Seq<char>| #[trigger] lists.paging@.dom().contains(k) implies lists.paging@[k] < b1 + 2 by {}
            }
        }
        i = i + 1;
    }
}

/// Transactions and their indexes, in memory.
pub struct MemoryTxStore {
    pub txs: StrMap<String>,
    pub lists: IndexLists,
}

/// The references listed under an entry's latest page (under the entry
/// itself while it has no page), or one empty text when none is listed.
fn latest_page_list(m: &StrMap<Vec<String>>, paging: &StrMap<i64>, key: &String, out: &mut Vec<String>)
    ensures
        ({
            let k = match paging@.get(key@) {
                Some(p) => page_ref_spec(p as int, key@),
                None => key@,
            };
            texts(final(out)@) == texts(old(out)@) + (if lists_view(m@).dom().contains(k) {
                lists_view(m@)[k]
            } else {
                seq![Seq::<char>::empty()]
            })
        }),
{
    let k = match paging.get(key) {
        Some(p) => page_ref(*p, key.clone()),
        None => key.clone(),
    };
    append_list(m, &k, out);
}

/// Appends the references listed under `k`, or one empty text.
fn append_list(m: &StrMap<Vec<String>>, k: &String, out: &mut Vec<String>)
    ensures
        texts(final(out)@) == texts(old(out)@) + (if lists_view(m@).dom().contains(k@) {
            lists_view(m@)[k@]
        } else {
            seq![Seq::<char>::empty()]
        }),
{
    let ghost start = texts(out@);
    match m.get(k) {
        Some(v) => {
            let mut i: usize = 0;
            while i < v.len()
                invariant
                    i <= v@.len(),
                    texts(out@) == start + texts(v@).subrange(0, i as int),
                decreases v@.len() - i,
            {
                let ghost o0 = out@;
                out.push(v[i].clone());
                proof {
                    assert(texts(out@) =~= texts(o0).push(v@[i as int]@));
                    assert(texts(v@).subrange(0, i + 1) =~= texts(v@).subrange(0, i as int).push(v@[i as int]@));
                }
                i = i + 1;
                proof {
                    assert(texts(out@) =~= start + texts(v@).subrange(0, i as int));
                }
            }
            proof {
                assert(texts(v@).subrange(0, v@.len() as int) =~= texts(v@));
            }
        },
        None => {
            out.push(String::new());
            proof {
                assert(texts(out@) =~= start + seq![Seq::<char>::empty()]);
            }
        },
    }
}

/// The trytes of a transaction that is not held: 2673 `9`s.
pub open spec fn missing_trytes() -> Seq<char> {
    Seq::new(2673, |i: int| '9')
}

fn nines() -> (r: String)
    ensures
        r@ == missing_trytes(),
{
    let mut r = String::new();
    let mut i: usize = 0;
    while i < 2673
        invariant
            i <= 2673,
            r@ == Seq::new(i as nat, |q: int| '9'),
        decreases 2673 - i,
    {
        crate::pathway::push_char(&mut r, '9');
        i = i + 1;
        proof {
            assert(r@ =~= Seq::new(i as nat, |q: int| '9'));
        }
    }
    r
}

impl MemoryTxStore {
    pub fn new() -> (r: MemoryTxStore)
        ensures
            r.txs@ == Map::<Seq<char>, String>::empty(),
    {
        MemoryTxStore {
            txs: StrMap::new(),
            lists: IndexLists {
                address: StrMap::new(),
                tag: StrMap::new(),
                bundle: StrMap::new(),
                approvee: StrMap::new(),
                paging: StrMap::new(),
            },
        }
    }
}

/// The positions among the first `n` keys whose key is not held, in order.
pub open spec fn missing_positions(txs: Map<Seq<char>, String>, keys: Seq<String>, n: int) -> Seq<usize>
    decreases n,
{
    if n <= 0 {
        Seq::empty()
    } else if txs.dom().contains(keys[n - 1]@) {
        missing_positions(txs, keys, n - 1)
    } else {
        missing_positions(txs, keys, n - 1).push((n - 1) as usize)
    }
}

/// The missing positions are, in increasing order, exactly the positions
/// whose key is not held.
pub proof fn lemma_missing_positions(txs: Map<Seq<char>, String>, keys: Seq<String>, n: int)
    requires
        0 <= n <= keys.len(),
        n <= usize::MAX,
    ensures
        forall|j: int| 0 <= j < missing_positions(txs, keys, n).len() ==> {
            let p = #[trigger] missing_positions(txs, keys, n)[j];
            p < n && !txs.dom().contains(keys[p as int]@)
        },
        forall|a: int, b: int| 0 <= a < b < missing_positions(txs, keys, n).len() ==>
            #[trigger] missing_positions(txs, keys, n)[a] < #[trigger] missing_positions(txs, keys, n)[b],
        forall|i: int| 0 <= i < n && !txs.dom().contains(#[trigger] keys[i]@) ==> missing_positions(txs, keys, n).contains(i as usize),
    decreases n,
{
    if n > 0 {
        lemma_missing_positions(txs, keys, n - 1);
        let m = missing_positions(txs, keys, n - 1);
        if !txs.dom().contains(keys[n - 1]@) {
            let m2 = m.push((n - 1) as usize);
            assert(m2[m.len() as int] == (n - 1) as usize);
            assert forall|i: int| 0 <= i < n && !txs.dom().contains(#[trigger] keys[i]@) implies m2.contains(i as usize) by {
                if i < n - 1 {
                    let j = choose|j: int| 0 <= j < m.len() && m[j] == i as usize;
                    assert(m2[j] == i as usize);
                } else {
                    assert(m2[m.len() as int] == i as usize);
                }
            }
        }
    }
}

/// For each pair, whether its hash is held already.
pub open spec fn held_flags(txs: Map<Seq<char>, String>, pairs: Seq<(String, String)>) -> Seq<bool> {
    Seq::new(pairs.len(), |i: int| txs.dom().contains(pairs[i].0@))
}

/// Whether storing `pairs` is refused: too many pairs, trytes of a new
/// hash that are not ASCII of at least 2619 characters, or a page number
/// too large to go on.
pub open spec fn store_refused(txs: Map<Seq<char>, String>, paging: Map<Seq<char>, i64>, pairs: Seq<(String, String)>) -> bool {
    ||| pairs.len() >= 0x3fff_ffff_ffff_fff0
    ||| exists|i: int| 0 <= i < pairs.len() && !txs.dom().contains(#[trigger] pairs[i].0@)
        && !(vstd::utf8::is_ascii_chars(pairs[i].1@) && pairs[i].1@.len() >= 2619)
    ||| exists|k: Seq<char>| #[trigger] paging.dom().contains(k) && paging[k] >= i64::MAX - 2 * pairs.len()
}

impl TXPersistence for MemoryTxStore {
    /// Stores the pairs (hash, trytes) not held yet and indexes them as
    /// `plan_store_txs` plans. Refused, with nothing changed, when new
    /// trytes are not ASCII of at least 2619 characters, when there are too
    /// many pairs, or when a page number is too large to go on.
    fn store_txs(&mut self, pairs: Vec<(String, String)>) -> (r: Result<(), String>)
        ensures
            r is Err <==> store_refused(old(self).txs@, old(self).lists.paging@, pairs@),
            r is Err ==> final(self).txs@ == old(self).txs@ && final(self).lists == old(self).lists,
            r is Ok ==> final(self).lists.model() == index_all(
                old(self).lists.model(),
                pairs@,
                held_flags(old(self).txs@, pairs@),
                pairs@.len() as int,
            ),
            r is Ok ==> forall|i: int| 0 <= i < pairs@.len() ==> final(self).txs@.dom().contains(#[trigger] pairs@[i].0@),
            r is Ok ==> forall|k: Seq<char>| #[trigger] final(self).txs@.dom().contains(k) ==> old(self).txs@.dom().contains(k)
                || exists|i: int| 0 <= i < pairs@.len() && #[trigger] pairs@[i].0@ == k,
            r is Ok ==> forall|k: Seq<char>| #[trigger] old(self).txs@.dom().contains(k) ==> final(self).txs@[k] == old(self).txs@[k],
            r is Ok ==> forall|i: int| 0 <= i < pairs@.len() && !old(self).txs@.dom().contains(#[trigger] pairs@[i].0@) ==> exists|j: int|
                0 <= j < pairs@.len() && pairs@[j].0@ == pairs@[i].0@ && final(self).txs@[pairs@[i].0@]@ == #[trigger] pairs@[j].1@,
    {
        if pairs.len() as u64 >= 0x3fff_ffff_ffff_fff0u64 {
            return Err("Too many transactions".to_owned());
        }
        let n = pairs.len() as i64;
        assert(2 * pairs@.len() < i64::MAX - 4);
        let mut stored: Vec<bool> = Vec::new();
        let mut i: usize = 0;
        while i < pairs.len()
            invariant
                i <= pairs@.len(),
                stored@.len() == i,
                forall|q: int| 0 <= q < i && !stored@[q] ==> vstd::utf8::is_ascii_chars((#[trigger] pairs@[q]).1@)
                    && pairs@[q].1@.len() >= 2619,
                forall|q: int| 0 <= q < i ==> stored@[q] == self.txs@.dom().contains(#[trigger] pairs@[q].0@),
            decreases pairs@.len() - i,
        {
            let held = self.txs.contains_key(&pairs[i].0);
            if !held {
                let t = pairs[i].1.as_str();
                if !t.is_ascii() || t.unicode_len() < 2619 {
                    return Err("Transaction trytes are not readable".to_owned());
                }
            }
            stored.push(held);
            i = i + 1;
        }
        let keys = self.lists.paging.keys();
        let mut j: usize = 0;
        while j < keys.len()
            invariant
                j <= keys@.len(),
                keys@.len() == self.lists.paging.entry_seq().len(),
                forall|q: int| 0 <= q < keys@.len() ==> #[trigger] keys@[q]@ == self.lists.paging.entry_seq()[q].0@,
                forall|k: Seq<char>| self.lists.paging@.dom().contains(k) <==> exists|q: int| 0 <= q < keys@.len() && #[trigger] keys@[q]@ == k,
                2 * pairs@.len() < i64::MAX - 4,
                n == pairs@.len(),
                forall|q: int| 0 <= q < j ==> self.lists.paging@.dom().contains(#[trigger] keys@[q]@)
                    && self.lists.paging@[keys@[q]@] < i64::MAX - 2 * pairs@.len(),
            decreases keys@.len() - j,
        {
            match self.lists.paging.get(&keys[j]) {
                Some(p) => {
                    if *p >= i64::MAX - 2 * n {
                        return Err("Page number out of range".to_owned());
                    }
                },
                None => {},
            }
            proof {
                assert(self.lists.paging@.dom().contains(keys@[j as int]@)) by {
                    assert(exists|q: int| 0 <= q < keys@.len() && #[trigger] keys@[q]@ == keys@[j as int]@);
                }
            }
            j = j + 1;
        }
        proof {
            assert forall|k: Seq<char>| #[trigger] self.lists.paging@.dom().contains(k) implies self.lists.paging@[k] < i64::MAX - 2 * pairs@.len() by {
                let q = choose|q: int| 0 <= q < keys@.len() && #[trigger] keys@[q]@ == k;
                assert(keys@[q]@ == k);
            }
        }
        proof {
            assert(stored@ =~= held_flags(self.txs@, pairs@));
        }
        plan_store_txs(&pairs, &stored, &mut self.lists);
        let ghost planned = self.lists;
        let mut k: usize = 0;
        while k < pairs.len()
            invariant
                k <= pairs@.len(),
                stored@.len() == pairs@.len(),
                self.lists == planned,
                forall|q: int| 0 <= q < pairs@.len() ==> (stored@[q] <==> old(self).txs@.dom().contains(#[trigger] pairs@[q].0@)),
                forall|key: Seq<char>| #[trigger] old(self).txs@.dom().contains(key) ==> self.txs@.dom().contains(key)
                    && self.txs@[key] == old(self).txs@[key],
                forall|key: Seq<char>| #[trigger] self.txs@.dom().contains(key) ==> old(self).txs@.dom().contains(key)
                    || exists|i: int| 0 <= i < k && #[trigger] pairs@[i].0@ == key,
                forall|q: int| 0 <= q < k ==> self.txs@.dom().contains(#[trigger] pairs@[q].0@),
                forall|q: int| 0 <= q < k && !old(self).txs@.dom().contains(#[trigger] pairs@[q].0@) ==> exists|j: int|
                    0 <= j < pairs@.len() && pairs@[j].0@ == pairs@[q].0@ && self.txs@[pairs@[q].0@]@ == #[trigger] pairs@[j].1@,
            decreases pairs@.len() - k,
        {
            let ghost before = self.txs@;
            if !stored[k] {
                self.txs.insert(pairs[k].0.clone(), pairs[k].1.clone());
                proof {
                    assert forall|q: int| 0 <= q <= k && !old(self).txs@.dom().contains(#[trigger] pairs@[q].0@) implies exists|j: int|
                        0 <= j < pairs@.len() && pairs@[j].0@ == pairs@[q].0@ && self.txs@[pairs@[q].0@]@ == #[trigger] pairs@[j].1@ by {
                        if pairs@[q].0@ == pairs@[k as int].0@ {
                            assert(pairs@[k as int].1@ == self.txs@[pairs@[q].0@]@);
                        } else {
                            let j = choose|j: int| 0 <= j < pairs@.len() && pairs@[j].0@ == pairs@[q].0@ && before[pairs@[q].0@]@ == #[trigger] pairs@[j].1@;
                            assert(pairs@[j].1@ == self.txs@[pairs@[q].0@]@);
                        }
                    }
                    assert forall|key: Seq<char>| #[trigger] self.txs@.dom().contains(key) implies old(self).txs@.dom().contains(key)
                        || exists|i: int| 0 <= i < k + 1 && #[trigger] pairs@[i].0@ == key by {
                        if key == pairs@[k as int].0@ {
                            assert(pairs@[k as int].0@ == key);
                        } else if !old(self).txs@.dom().contains(key) {
                            let i = choose|i: int| 0 <= i < k && #[trigger] pairs@[i].0@ == key;
                            assert(pairs@[i].0@ == key);
                        }
                    }
                }
            } else {
                proof {
                    assert forall|key: Seq<char>| #[trigger] self.txs@.dom().contains(key) implies old(self).txs@.dom().contains(key)
                        || exists|i: int| 0 <= i < k + 1 && #[trigger] pairs@[i].0@ == key by {
                        if !old(self).txs@.dom().contains(key) {
                            let i = choose|i: int| 0 <= i < k && #[trigger] pairs@[i].0@ == key;
                            assert(pairs@[i].0@ == key);
                        }
                    }
                }
            }
            k = k + 1;
        }
        Ok(())
    }

    /// The trytes of each key, 2673 `9`s for one not held, and the positions
    /// of those not held.
    fn get_txs(&self, keys: Vec<String>) -> (r: Result<(Vec<String>, Vec<usize>), String>)
        ensures
            r matches Ok(p) && p.0@.len() == keys@.len()
                && (forall|i: int| 0 <= i < keys@.len() ==> (#[trigger] p.0@[i])@ == (if self.txs@.dom().contains(keys@[i]@) {
                    self.txs@[keys@[i]@]@
                } else {
                    missing_trytes()
                }))
                && p.1@ == missing_positions(self.txs@, keys@, keys@.len() as int),
    {
        let mut found: Vec<String> = Vec::new();
        let mut missing: Vec<usize> = Vec::new();
        let mut i: usize = 0;
        while i < keys.len()
            invariant
                i <= keys@.len(),
                found@.len() == i,
                forall|q: int| 0 <= q < i ==> (#[trigger] found@[q])@ == (if self.txs@.dom().contains(keys@[q]@) {
                    self.txs@[keys@[q]@]@
                } else {
                    missing_trytes()
                }),
                missing@ == missing_positions(self.txs@, keys@, i as int),
            decreases keys@.len() - i,
        {
            match self.txs.get(&keys[i]) {
                Some(t) => found.push(t.clone()),
                None => {
                    found.push(nines());
                    missing.push(i);
                },
            }
            i = i + 1;
        }
        Ok((found, missing))
    }

    /// The transactions listed under each bundle in turn.
    fn find_bundle(&self, keys: Vec<String>) -> (r: Result<Vec<String>, String>)
        ensures
            r matches Ok(v) && texts(v@) == found_refs(lists_view(self.lists.bundle@), Map::empty(), false, keys@, keys@.len() as int),
    {
        Ok(find_in(&self.lists.bundle, &keys))
    }

    /// The transactions listed under the latest page of each tag in turn.
    fn find_tag(&self, keys: Vec<String>) -> (r: Result<Vec<String>, String>)
        ensures
            r matches Ok(v) && texts(v@) == found_refs(lists_view(self.lists.tag@), self.lists.paging@, true, keys@, keys@.len() as int),
    {
        Ok(find_paged(&self.lists.tag, &self.lists.paging, &keys))
    }

    /// The transactions listed under the latest page of each address in turn.
    fn find_address(&self, keys: Vec<String>) -> (r: Result<Vec<String>, String>)
        ensures
            r matches Ok(v) && texts(v@) == found_refs(lists_view(self.lists.address@), self.lists.paging@, true, keys@, keys@.len() as int),
    {
        Ok(find_paged(&self.lists.address, &self.lists.paging, &keys))
    }

    /// The transactions that approve each key in turn.
    fn find_approvees(&self, keys: Vec<String>) -> (r: Result<Vec<String>, String>)
        ensures
            r matches Ok(v) && texts(v@) == found_refs(lists_view(self.lists.approvee@), Map::empty(), false, keys@, keys@.len() as int),
    {
        Ok(find_in(&self.lists.approvee, &keys))
    }
}

/// The references listed under `k`, or one empty text when none is listed.
pub open spec fn listed(lv: Map<Seq<char>, Seq<Seq<char>>>, k: Seq<char>) -> Seq<Seq<char>> {
    if lv.dom().contains(k) {
        lv[k]
    } else {
        seq![Seq::<char>::empty()]
    }
}

/// The entry that holds an entry's latest page: the page reference, or the
/// entry itself while it has no page.
pub open spec fn latest_page_key(paging: Map<Seq<char>, i64>, k: Seq<char>) -> Seq<char> {
    match paging.get(k) {
        Some(p) => page_ref_spec(p as int, k),
        None => k,
    }
}

/// The references listed under each of the first `n` keys in turn, under
/// the key's latest page when `paged`.
pub open spec fn found_refs(
    lv: Map<Seq<char>, Seq<Seq<char>>>,
    paging: Map<Seq<char>, i64>,
    paged: bool,
    keys: Seq<String>,
    n: int,
) -> Seq<Seq<char>>
    decreases n,
{
    if n <= 0 {
        Seq::empty()
    } else {
        let k = if paged { latest_page_key(paging, keys[n - 1]@) } else { keys[n - 1]@ };
        found_refs(lv, paging, paged, keys, n - 1) + listed(lv, k)
    }
}

/// The references listed under each key in turn (one empty text for a key
/// with none).
fn find_in(m: &StrMap<Vec<String>>, keys: &Vec<String>) -> (r: Vec<String>)
    ensures
        texts(r@) == found_refs(lists_view(m@), Map::empty(), false, keys@, keys@.len() as int),
{
    let mut out: Vec<String> = Vec::new();
    let mut i: usize = 0;
    while i < keys.len()
        invariant
            i <= keys@.len(),
            texts(out@) == found_refs(lists_view(m@), Map::empty(), false, keys@, i as int),
        decreases keys@.len() - i,
    {
        append_list(m, &keys[i], &mut out);
        i = i + 1;
    }
    out
}

/// The references listed under the latest page of each key in turn.
fn find_paged(m: &StrMap<Vec<String>>, paging: &StrMap<i64>, keys: &Vec<String>) -> (r: Vec<String>)
    ensures
        texts(r@) == found_refs(lists_view(m@), paging@, true, keys@, keys@.len() as int),
{
    let mut out: Vec<String> = Vec::new();
    let mut i: usize = 0;
    while i < keys.len()
        invariant
            i <= keys@.len(),
            texts(out@) == found_refs(lists_view(m@), paging@, true, keys@, i as int),
        decreases keys@.len() - i,
    {
        latest_page_list(m, paging, &keys[i], &mut out);
        i = i + 1;
    }
    out
}

} // verus!
