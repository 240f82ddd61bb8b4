//! Text: the order of strings, sorted lists of distinct strings, and the
//! rendering of numbers in messages.

use vstd::prelude::*;

verus! {

/// How one string stands to another in the order of strings.
#[derive(Debug, Clone, Copy, PartialEq, Eq, Structural)]
pub enum Order {
    Before,
    Same,
    After,
}

/// The contents of a slice of string slices.
pub open spec fn words(list: Seq<&str>) -> Seq<Seq<char>> {
    Seq::new(list.len(), |i: int| list[i]@)
}

/// The contents of a list of strings.
pub open spec fn texts(list: Seq<String>) -> Seq<Seq<char>> {
    Seq::new(list.len(), |i: int| list[i]@)
}

/// Lexicographic order of byte sequences: at the first place where the two
/// differ, `a` has ended or holds the smaller byte.
pub open spec fn bytes_before(a: Seq<u8>, b: Seq<u8>) -> bool
    decreases a.len(),
{
    if b.len() == 0 {
        false
    } else if a.len() == 0 {
        true
    } else if a[0] != b[0] {
        a[0] < b[0]
    } else {
        bytes_before(a.drop_first(), b.drop_first())
    }
}

/// The order of strings: lexicographic by the bytes of their encoding.
pub open spec fn text_before(a: Seq<char>, b: Seq<char>) -> bool {
    bytes_before(vstd::utf8::encode_utf8(a), vstd::utf8::encode_utf8(b))
}

/// Every entry comes before every later one; in particular none occurs twice.
pub open spec fn sorted_distinct(list: Seq<Seq<char>>) -> bool {
    forall|i: int, j: int|
        0 <= i < j < list.len() ==> text_before(#[trigger] list[i], #[trigger] list[j])
}

/// The place of `key` in `list`, if it is there.
pub open spec fn place_of(list: Seq<Seq<char>>, key: Seq<char>) -> Option<int> {
    if list.contains(key) {
        Some(list.index_of(key))
    } else {
        None
    }
}

/// `list` holds exactly the strings of `items`, each once and in order.
pub open spec fn lists_distinct(list: Seq<Seq<char>>, items: Seq<Seq<char>>) -> bool {
    &&& sorted_distinct(list)
    &&& forall|c: Seq<char>| #[trigger] list.contains(c) <==> items.contains(c)
}

/// The distinct strings of `items`, in order.
pub open spec fn distinct_of(items: Seq<Seq<char>>) -> Seq<Seq<char>> {
    choose|list: Seq<Seq<char>>| #[trigger] lists_distinct(list, items)
}

proof fn lemma_bytes_irreflexive(a: Seq<u8>)
    ensures
        !bytes_before(a, a),
    decreases a.len(),
{
    if a.len() > 0 {
        lemma_bytes_irreflexive(a.drop_first());
    }
}

proof fn lemma_bytes_transitive(a: Seq<u8>, b: Seq<u8>, c: Seq<u8>)
    requires
        bytes_before(a, b),
        bytes_before(b, c),
    ensures
        bytes_before(a, c),
    decreases a.len(),
{
    if a.len() > 0 && a[0] == b[0] && b[0] == c[0] {
        lemma_bytes_transitive(a.drop_first(), b.drop_first(), c.drop_first());
    }
}

proof fn lemma_bytes_total(a: Seq<u8>, b: Seq<u8>)
    ensures
        bytes_before(a, b) || a == b || bytes_before(b, a),
    decreases a.len(),
{
    if a.len() > 0 && b.len() > 0 && a[0] == b[0] {
        lemma_bytes_total(a.drop_first(), b.drop_first());
        if a.drop_first() == b.drop_first() {
            assert(a =~= seq![a[0]] + a.drop_first());
            assert(b =~= seq![b[0]] + b.drop_first());
        }
    } else if a.len() == 0 && b.len() == 0 {
        assert(a =~= b);
    }
}

/// No string comes before itself.
pub proof fn lemma_text_irreflexive(a: Seq<char>)
    ensures
        !text_before(a, a),
{
    lemma_bytes_irreflexive(vstd::utf8::encode_utf8(a));
}

/// The order of strings is transitive.
pub proof fn lemma_text_transitive(a: Seq<char>, b: Seq<char>, c: Seq<char>)
    requires
        text_before(a, b),
        text_before(b, c),
    ensures
        text_before(a, c),
{
    lemma_bytes_transitive(
        vstd::utf8::encode_utf8(a),
        vstd::utf8::encode_utf8(b),
        vstd::utf8::encode_utf8(c),
    );
}

/// Of two different strings one comes before the other.
pub proof fn lemma_text_total(a: Seq<char>, b: Seq<char>)
    ensures
        text_before(a, b) || a == b || text_before(b, a),
{
    let x = vstd::utf8::encode_utf8(a);
    let y = vstd::utf8::encode_utf8(b);
    lemma_bytes_total(x, y);
    if x == y {
        vstd::utf8::encode_utf8_decode_utf8(a);
        vstd::utf8::encode_utf8_decode_utf8(b);
    }
}

/// A sorted list of distinct strings is determined by what it contains.
pub proof fn lemma_sorted_distinct_unique(a: Seq<Seq<char>>, b: Seq<Seq<char>>)
    requires
        sorted_distinct(a),
        sorted_distinct(b),
        forall|c: Seq<char>| #[trigger] a.contains(c) <==> b.contains(c),
    ensures
        a == b,
    decreases a.len(),
{
    if a.len() == 0 {
        if b.len() > 0 {
            assert(b.contains(b[0]));
            assert(a.contains(b[0]));
        }
        assert(a =~= b);
    } else {
        assert(a.contains(a[0]));
        assert(b.contains(b[0]));
        assert(a.contains(b[0]));
        let i = a.index_of(b[0]);
        let j = b.index_of(a[0]);
        assert(a[i] == b[0] && b[j] == a[0]);
        if i > 0 && j > 0 {
            lemma_text_transitive(a[0], b[0], a[0]);
            lemma_text_irreflexive(a[0]);
        }
        assert(a[0] == b[0]);
        let ta = a.drop_first();
        let tb = b.drop_first();
        assert forall|c: Seq<char>| #[trigger] ta.contains(c) <==> tb.contains(c) by {
            if ta.contains(c) {
                let k = choose|k: int| 0 <= k < ta.len() && ta[k] == c;
                assert(a[k + 1] == c);
                assert(a.contains(c));
                lemma_text_irreflexive(c);
                let m = choose|m: int| 0 <= m < b.len() && b[m] == c;
                assert(m > 0);
                assert(tb[m - 1] == c);
            }
            if tb.contains(c) {
                let k = choose|k: int| 0 <= k < tb.len() && tb[k] == c;
                assert(b[k + 1] == c);
                assert(b.contains(c));
                assert(a.contains(c));
                lemma_text_irreflexive(c);
                let m = choose|m: int| 0 <= m < a.len() && a[m] == c;
                assert(m > 0);
                assert(ta[m - 1] == c);
            }
        }
        lemma_sorted_distinct_unique(ta, tb);
        assert(a =~= seq![a[0]] + ta);
        assert(b =~= seq![b[0]] + tb);
    }
}

/// There is only one list of the distinct strings of `items`.
pub proof fn lemma_distinct_of(list: Seq<Seq<char>>, items: Seq<Seq<char>>)
    requires
        lists_distinct(list, items),
    ensures
        distinct_of(items) == list,
{
    let other = distinct_of(items);
    assert(lists_distinct(other, items));
    assert forall|c: Seq<char>| #[trigger] other.contains(c) <==> list.contains(c) by {
        assert(items.contains(c) <==> list.contains(c));
    }
    lemma_sorted_distinct_unique(other, list);
}

proof fn lemma_insert_sorted(list: Seq<Seq<char>>, key: Seq<char>) -> (r: Seq<Seq<char>>)
    requires
        sorted_distinct(list),
    ensures
        sorted_distinct(r),
        forall|c: Seq<char>| #[trigger] r.contains(c) <==> list.contains(c) || c == key,
    decreases list.len(),
{
    if list.len() == 0 {
        let r = seq![key];
        assert(r[0] == key);
        r
    } else {
        let head = list[0];
        lemma_text_total(key, head);
        assert(list.contains(head));
        if key == head {
            list
        } else if text_before(key, head) {
            let r = seq![key] + list;
            assert forall|i: int, j: int| 0 <= i < j < r.len() implies text_before(
                #[trigger] r[i],
                #[trigger] r[j],
            ) by {
                if i == 0 && j > 1 {
                    lemma_text_transitive(key, head, list[j - 1]);
                }
            }
            assert(r =~= list.insert(0, key));
            assert forall|c: Seq<char>| #[trigger] r.contains(c) <==> list.contains(c) || c
                == key by {
                lemma_insert_contains(list, 0, key, c);
            }
            r
        } else {
            let tail = list.drop_first();
            let rest = lemma_insert_sorted(tail, key);
            let r = seq![head] + rest;
            assert forall|i: int, j: int| 0 <= i < j < r.len() implies text_before(
                #[trigger] r[i],
                #[trigger] r[j],
            ) by {
                if i == 0 {
                    let c = rest[j - 1];
                    assert(rest.contains(c));
                    if c != key {
                        let k = choose|k: int| 0 <= k < tail.len() && tail[k] == c;
                        assert(list[k + 1] == c);
                    }
                }
            }
            assert(list =~= tail.insert(0, head));
            assert(r =~= rest.insert(0, head));
            assert forall|c: Seq<char>| #[trigger] r.contains(c) <==> list.contains(c) || c
                == key by {
                lemma_insert_contains(tail, 0, head, c);
                lemma_insert_contains(rest, 0, head, c);
            }
            r
        }
    }
}

proof fn lemma_distinct_list(items: Seq<Seq<char>>) -> (r: Seq<Seq<char>>)
    ensures
        lists_distinct(r, items),
    decreases items.len(),
{
    if items.len() == 0 {
        items
    } else {
        let key = items.last();
        let fewer = items.drop_last();
        let shorter = lemma_distinct_list(fewer);
        let r = lemma_insert_sorted(shorter, key);
        assert(items =~= fewer.push(key));
        assert forall|c: Seq<char>| #[trigger] r.contains(c) <==> items.contains(c) by {
            lemma_push_contains(fewer, key, c);
        }
        r
    }
}

/// Every list of strings has its list of distinct strings.
pub proof fn lemma_distinct_exists(items: Seq<Seq<char>>)
    ensures
        lists_distinct(distinct_of(items), items),
{
    let list = lemma_distinct_list(items);
    lemma_distinct_of(list, items);
}

/// In a list without repetitions every entry stands at its own place.
pub proof fn lemma_place_of(list: Seq<Seq<char>>, i: int)
    requires
        sorted_distinct(list),
        0 <= i < list.len(),
    ensures
        place_of(list, list[i]) == Some(i),
{
    let key = list[i];
    assert(list.contains(key));
    let j = list.index_of(key);
    lemma_text_irreflexive(key);
}

/// Compares two strings.
pub fn order_of(a: &str, b: &str) -> (r: Order)
    ensures
        r == Order::Before <==> text_before(a@, b@),
        r == Order::Same <==> a@ == b@,
        r == Order::After <==> text_before(b@, a@),
{
    let x = a.as_bytes();
    let y = b.as_bytes();
    let mut i: usize = 0;
    proof {
        lemma_bytes_irreflexive(x@);
        lemma_bytes_irreflexive(y@);
        lemma_text_irreflexive(a@);
        if text_before(a@, b@) && text_before(b@, a@) {
            lemma_text_transitive(a@, b@, a@);
        }
        assert(x@.skip(0) =~= x@);
        assert(y@.skip(0) =~= y@);
    }
    while i < x.len() && i < y.len()
        invariant
            i <= x.len(),
            i <= y.len(),
            x@ == vstd::utf8::encode_utf8(a@),
            y@ == vstd::utf8::encode_utf8(b@),
            bytes_before(x@, y@) == bytes_before(x@.skip(i as int), y@.skip(i as int)),
            bytes_before(y@, x@) == bytes_before(y@.skip(i as int), x@.skip(i as int)),
            x@.take(i as int) == y@.take(i as int),
            !text_before(a@, a@),
            !(text_before(a@, b@) && text_before(b@, a@)),
        decreases x.len() - i,
    {
        let ghost xs = x@.skip(i as int);
        let ghost ys = y@.skip(i as int);
        if x[i] < y[i] {
            assert(xs[0] == x[i as int] && ys[0] == y[i as int]);
            return Order::Before;
        }
        if y[i] < x[i] {
            assert(xs[0] == x[i as int] && ys[0] == y[i as int]);
            return Order::After;
        }
        proof {
            assert(xs[0] == x[i as int] && ys[0] == y[i as int]);
            assert(xs.drop_first() =~= x@.skip(i + 1));
            assert(ys.drop_first() =~= y@.skip(i + 1));
            assert(x@.take(i + 1) =~= x@.take(i as int).push(x[i as int]));
            assert(y@.take(i + 1) =~= y@.take(i as int).push(y[i as int]));
        }
        i = i + 1;
    }
    if i < y.len() {
        Order::Before
    } else if i < x.len() {
        Order::After
    } else {
        proof {
            assert(x@.take(i as int) =~= x@);
            assert(y@.take(i as int) =~= y@);
            vstd::utf8::encode_utf8_decode_utf8(a@);
            vstd::utf8::encode_utf8_decode_utf8(b@);
        }
        Order::Same
    }
}

/// Whether two strings are equal.
pub fn same_text(a: &str, b: &str) -> (r: bool)
    ensures
        r == (a@ == b@),
{
    matches!(order_of(a, b), Order::Same)
}

/// Looks `key` up in a sorted list: its place, or the place where it belongs.
pub fn find(list: &[String], key: &str) -> (r: core::result::Result<usize, usize>)
    requires
        sorted_distinct(texts(list@)),
    ensures
        match r {
            Ok(i) => i < list.len() && list[i as int]@ == key@ && place_of(texts(list@), key@)
                == Some(i as int),
            Err(p) => {
                &&& p <= list.len()
                &&& forall|i: int| 0 <= i < p ==> text_before(#[trigger] texts(list@)[i], key@)
                &&& forall|i: int|
                    p <= i < list.len() ==> text_before(key@, #[trigger] texts(list@)[i])
                &&& place_of(texts(list@), key@) is None
            },
        },
{
    let ghost all = texts(list@);
    let mut low: usize = 0;
    let mut high: usize = list.len();
    while low < high
        invariant
            low <= high <= list.len(),
            all == texts(list@),
            sorted_distinct(all),
            forall|i: int| 0 <= i < low ==> text_before(#[trigger] all[i], key@),
            forall|i: int| high <= i < list.len() ==> text_before(key@, #[trigger] all[i]),
        decreases high - low,
    {
        let mid: usize = low + (high - low) / 2;
        assert(all[mid as int] == list[mid as int]@);
        match order_of(list[mid].as_str(), key) {
            Order::Same => {
                proof {
                    lemma_place_of(all, mid as int);
                }
                return Ok(mid);
            },
            Order::Before => {
                assert forall|i: int| 0 <= i < mid + 1 implies text_before(
                    #[trigger] all[i],
                    key@,
                ) by {
                    if i < mid {
                        lemma_text_transitive(all[i], all[mid as int], key@);
                    }
                }
                low = mid + 1;
            },
            Order::After => {
                assert forall|i: int| mid <= i < list.len() implies text_before(
                    key@,
                    #[trigger] all[i],
                ) by {
                    if mid < i {
                        lemma_text_transitive(key@, all[mid as int], all[i]);
                    }
                }
                high = mid;
            },
        }
    }
    proof {
        if all.contains(key@) {
            lemma_text_irreflexive(key@);
        }
    }
    Err(low)
}

/// A list of texts again.
pub fn copy_texts(list: &[String]) -> (r: Vec<String>)
    ensures
        texts(r@) == texts(list@),
        r@.len() == list@.len(),
{
    let mut copies: Vec<String> = Vec::new();
    let mut i: usize = 0;
    while i < list.len()
        invariant
            i <= list.len(),
            copies@.len() == i,
            forall|k: int| 0 <= k < i ==> (#[trigger] copies@[k])@ == list@[k]@,
        decreases list.len() - i,
    {
        copies.push(list[i].clone());
        i = i + 1;
    }
    assert(texts(copies@) =~= texts(list@));
    copies
}

/// The distinct strings of `items`, in order.
pub fn distinct_sorted(items: &[&str]) -> (r: Vec<String>)
    ensures
        lists_distinct(texts(r@), words(items@)),
        texts(r@) == distinct_of(words(items@)),
        r.len() <= items.len(),
{
    let mut list: Vec<String> = Vec::new();
    let mut n: usize = 0;
    while n < items.len()
        invariant
            n <= items.len(),
            list.len() <= n,
            sorted_distinct(texts(list@)),
            forall|c: Seq<char>| #[trigger]
                texts(list@).contains(c) <==> words(items@).take(n as int).contains(c),
        decreases items.len() - n,
    {
        let ghost before = texts(list@);
        let ghost seen = words(items@).take(n as int);
        let ghost key = items[n as int]@;
        assert(words(items@).take(n + 1) =~= seen.push(key));
        let item: &str = items[n];
        match find(list.as_slice(), item) {
            Ok(i) => {
                proof {
                    assert(before[i as int] == key);
                    assert forall|c: Seq<char>| #[trigger]
                        before.contains(c) <==> seen.push(key).contains(c) by {
                        lemma_push_contains(seen, key, c);
                    }
                }
            },
            Err(p) => {
                list.insert(p, item.to_owned());
                proof {
                    let after = texts(list@);
                    assert(after =~= before.insert(p as int, key));
                    lemma_insert_keeps_sorted(before, p as int, key);
                    assert forall|c: Seq<char>| #[trigger]
                        after.contains(c) <==> seen.push(key).contains(c) by {
                        lemma_push_contains(seen, key, c);
                        lemma_insert_contains(before, p as int, key, c);
                    }
                }
            },
        }
        n = n + 1;
    }
    proof {
        assert(words(items@).take(n as int) =~= words(items@));
        lemma_distinct_of(texts(list@), words(items@));
    }
    list
}

/// A sorted list stays sorted when something is put where it belongs.
pub proof fn lemma_insert_keeps_sorted(list: Seq<Seq<char>>, p: int, key: Seq<char>)
    requires
        sorted_distinct(list),
        0 <= p <= list.len(),
        forall|i: int| 0 <= i < p ==> text_before(#[trigger] list[i], key),
        forall|i: int| p <= i < list.len() ==> text_before(key, #[trigger] list[i]),
    ensures
        sorted_distinct(list.insert(p, key)),
{
    let after = list.insert(p, key);
    assert forall|i: int, j: int| 0 <= i < j < after.len() implies text_before(
        #[trigger] after[i],
        #[trigger] after[j],
    ) by {
        let oi: int = if i < p { i } else { i - 1 };
        let oj: int = if j < p { j } else { j - 1 };
        if i != p && j != p {
            assert(after[i] == list[oi] && after[j] == list[oj]);
        } else if j == p {
            assert(after[i] == list[i]);
        } else {
            assert(after[j] == list[oj]);
        }
    }
}

/// What a longer list contains.
pub proof fn lemma_push_contains<A>(s: Seq<A>, x: A, c: A)
    ensures
        s.push(x).contains(c) <==> s.contains(c) || c == x,
{
    let t = s.push(x);
    if s.contains(c) {
        let k = choose|k: int| 0 <= k < s.len() && s[k] == c;
        assert(t[k] == c);
    }
    assert(t[s.len() as int] == x);
}

/// What a list contains once something has been put in.
pub proof fn lemma_insert_contains<A>(s: Seq<A>, p: int, x: A, c: A)
    requires
        0 <= p <= s.len(),
    ensures
        s.insert(p, x).contains(c) <==> s.contains(c) || c == x,
{
    let t = s.insert(p, x);
    assert(t[p] == x);
    if s.contains(c) {
        let k = choose|k: int| 0 <= k < s.len() && s[k] == c;
        assert(t[if k < p { k } else { k + 1 }] == c);
    }
    if t.contains(c) {
        let k = choose|k: int| 0 <= k < t.len() && t[k] == c;
        if k < p {
            assert(s[k] == c);
        } else if k > p {
            assert(s[k - 1] == c);
        }
    }
}

/// The digit that stands for `d`.
pub open spec fn digit(d: nat) -> char
    recommends
        d < 10,
{
    (48 + d) as char
}

/// `n` in decimal notation.
pub open spec fn decimal(n: nat) -> Seq<char>
    decreases n,
{
    if n < 10 {
        seq![digit(n)]
    } else {
        decimal(n / 10).push(digit(n % 10))
    }
}

/// Appends one digit.
fn push_digit(s: &mut String, d: u64)
    requires
        d < 10,
    ensures
        final(s)@ == old(s)@.push(digit(d as nat)),
{
    proof {
        reveal_strlit("0");
        reveal_strlit("1");
        reveal_strlit("2");
        reveal_strlit("3");
        reveal_strlit("4");
        reveal_strlit("5");
        reveal_strlit("6");
        reveal_strlit("7");
        reveal_strlit("8");
        reveal_strlit("9");
    }
    let c = match d {
        0 => "0",
        1 => "1",
        2 => "2",
        3 => "3",
        4 => "4",
        5 => "5",
        6 => "6",
        7 => "7",
        8 => "8",
        _ => "9",
    };
    let ghost start = s@;
    s.append(c);
    assert(c@ =~= seq![digit(d as nat)]);
    assert(s@ =~= start.push(digit(d as nat)));
}

/// Renders a number in decimal notation.
pub fn decimal_string(n: u64) -> (r: String)
    ensures
        r@ == decimal(n as nat),
    decreases n,
{
    if n < 10 {
        let mut s = String::new();
        push_digit(&mut s, n);
        assert(s@ =~= seq![digit(n as nat)]);
        s
    } else {
        let mut s = decimal_string(n / 10);
        push_digit(&mut s, n % 10);
        s
    }
}

/// `a` followed by `b`.
pub fn join2(a: &str, b: &str) -> (r: String)
    ensures
        r@ == a@ + b@,
{
    let mut s = a.to_owned();
    s.append(b);
    s
}

/// `a`, `b` and `c` in a row.
pub fn join3(a: &str, b: &str, c: &str) -> (r: String)
    ensures
        r@ == a@ + b@ + c@,
{
    let mut s = a.to_owned();
    s.append(b);
    s.append(c);
    s
}

/// Five strings in a row.
pub fn join5(a: &str, b: &str, c: &str, d: &str, e: &str) -> (r: String)
    ensures
        r@ == a@ + b@ + c@ + d@ + e@,
{
    let mut s = a.to_owned();
    s.append(b);
    s.append(c);
    s.append(d);
    s.append(e);
    s
}

/// The number that a text of digits stands for.
pub open spec fn number_of(text: Seq<char>) -> int
    decreases text.len(),
{
    if text.len() == 0 {
        0
    } else {
        10 * number_of(text.drop_last()) + (text.last() as int - '0' as int)
    }
}

/// A number in decimal notation is read back as that number, consists of digits,
/// and begins with none that could be left out.
pub proof fn law_decimal_is_read_back(n: nat)
    ensures
        number_of(decimal(n)) == n,
        decimal(n).len() > 0,
        forall|i: int| 0 <= i < decimal(n).len() ==> '0' <= #[trigger] decimal(n)[i] <= '9',
        n > 0 ==> decimal(n)[0] != '0',
    decreases n,
{
    let text = decimal(n);
    if n < 10 {
        assert(text.drop_last() =~= Seq::<char>::empty());
        assert(number_of(Seq::<char>::empty()) == 0);
        assert(text.last() == digit(n));
    } else {
        law_decimal_is_read_back(n / 10);
        assert(text.drop_last() =~= decimal(n / 10));
        assert(text.last() == digit(n % 10));
    }
}

} // verus!
