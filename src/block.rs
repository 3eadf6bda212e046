use sha2::Digest;
use vstd::prelude::*;
use vstd::string::*;

verus! {

/// A ledger entry carried inside a block.
#[derive(Debug, Clone, PartialEq, Eq, PartialOrd, Ord)]
pub enum Transaction {
    MinerReward(String, u64),
    Text(String),
    Shutdown,
}

/// Mathematical value of a transaction.
pub ghost enum TxModel {
    MinerReward(Seq<char>, u64),
    Text(Seq<char>),
    Shutdown,
}

impl View for Transaction {
    type V = TxModel;

    open spec fn view(&self) -> TxModel {
        match self {
            Transaction::MinerReward(name, amount) => TxModel::MinerReward(name@, *amount),
            Transaction::Text(text) => TxModel::Text(text@),
            Transaction::Shutdown => TxModel::Shutdown,
        }
    }
}

/// A block of the chain: its position, its link to the previous block, the
/// proof-of-work counter, the stored hash and its sorted transactions.
#[derive(Debug, Clone)]
pub struct Block {
    pub index: u64,
    pub proof_of_work: u64,
    pub previous_hash: String,
    pub hash: String,
    pub transactions: Vec<Transaction>,
}

/// Mathematical value of a block.
pub ghost struct BlockModel {
    pub index: u64,
    pub proof_of_work: u64,
    pub previous_hash: Seq<char>,
    pub hash: Seq<char>,
    pub transactions: Seq<TxModel>,
}

impl View for Block {
    type V = BlockModel;

    open spec fn view(&self) -> BlockModel {
        BlockModel {
            index: self.index,
            proof_of_work: self.proof_of_work,
            previous_hash: self.previous_hash@,
            hash: self.hash@,
            transactions: self.transactions@.map_values(|t: Transaction| t@),
        }
    }
}

/// Lexicographic order of strings by code point.
pub open spec fn lex_lt(a: Seq<char>, b: Seq<char>) -> bool
    decreases a.len(),
{
    if a.len() == 0 {
        b.len() > 0
    } else if b.len() == 0 {
        false
    } else if a[0] != b[0] {
        (a[0] as u32) < (b[0] as u32)
    } else {
        lex_lt(a.drop_first(), b.drop_first())
    }
}

pub open spec fn tx_rank(t: TxModel) -> int {
    match t {
        TxModel::MinerReward(_, _) => 0,
        TxModel::Text(_) => 1,
        TxModel::Shutdown => 2,
    }
}

/// The order of transactions: by variant, then by fields in order.
pub open spec fn tx_lt(a: TxModel, b: TxModel) -> bool {
    match (a, b) {
        (TxModel::MinerReward(n1, x1), TxModel::MinerReward(n2, x2)) => lex_lt(n1, n2) || (n1
            == n2 && x1 < x2),
        (TxModel::Text(s1), TxModel::Text(s2)) => lex_lt(s1, s2),
        _ => tx_rank(a) < tx_rank(b),
    }
}

/// Strictly increasing in the transaction order: sorted, no duplicates.
pub open spec fn sorted_unique(s: Seq<TxModel>) -> bool {
    forall|i: int, j: int| 0 <= i < j < s.len() ==> tx_lt(#[trigger] s[i], #[trigger] s[j])
}

proof fn lemma_char_code_injective(x: char, y: char)
    ensures
        x != y ==> x as u32 != y as u32,
{
}

proof fn lemma_lex_order(a: Seq<char>, b: Seq<char>, c: Seq<char>)
    ensures
        !lex_lt(a, a),
        lex_lt(a, b) ==> !lex_lt(b, a),
        a != b ==> lex_lt(a, b) || lex_lt(b, a),
        lex_lt(a, b) && lex_lt(b, c) ==> lex_lt(a, c),
    decreases a.len(),
{
    if a.len() > 0 && b.len() > 0 {
        lemma_char_code_injective(a[0], b[0]);
        let c_tail = if c.len() > 0 {
            c.drop_first()
        } else {
            b.drop_first()
        };
        lemma_lex_order(a.drop_first(), b.drop_first(), c_tail);
        if a != b && a[0] == b[0] {
            assert(a =~= seq![a[0]] + a.drop_first());
            assert(b =~= seq![b[0]] + b.drop_first());
        }
    } else if a.len() > 0 {
        lemma_lex_order(a.drop_first(), a.drop_first(), a.drop_first());
    } else if b.len() == 0 {
        assert(a =~= b);
    }
}

proof fn lemma_tx_order(a: TxModel, b: TxModel, c: TxModel)
    ensures
        !tx_lt(a, a),
        a != b ==> tx_lt(a, b) || tx_lt(b, a),
        tx_lt(a, b) && tx_lt(b, c) ==> tx_lt(a, c),
{
    match (a, b, c) {
        (TxModel::MinerReward(n1, _), TxModel::MinerReward(n2, _), TxModel::MinerReward(n3, _)) => {
            lemma_lex_order(n1, n2, n3);
            lemma_lex_order(n2, n1, n3);
        },
        (TxModel::Text(s1), TxModel::Text(s2), TxModel::Text(s3)) => {
            lemma_lex_order(s1, s2, s3);
        },
        (TxModel::MinerReward(n1, _), TxModel::MinerReward(n2, _), _) => {
            lemma_lex_order(n1, n2, n2);
        },
        (TxModel::Text(s1), TxModel::Text(s2), _) => {
            lemma_lex_order(s1, s2, s2);
        },
        (TxModel::MinerReward(n1, _), _, _) => {
            lemma_lex_order(n1, n1, n1);
        },
        (TxModel::Text(s1), _, _) => {
            lemma_lex_order(s1, s1, s1);
        },
        _ => {},
    }
}

proof fn lemma_insert_sorted_elements(s: Seq<TxModel>, t: TxModel)
    ensures
        forall|x: TxModel| #[trigger] insert_sorted(s, t).contains(x) ==> s.contains(x) || x == t,
    decreases s.len(),
{
    if s.len() > 0 && s[0] != t && !tx_lt(t, s[0]) {
        lemma_insert_sorted_elements(s.drop_first(), t);
        let r = insert_sorted(s.drop_first(), t);
        assert forall|x: TxModel| #[trigger] insert_sorted(s, t).contains(x) implies s.contains(
            x,
        ) || x == t by {
            let u = seq![s[0]] + r;
            let k = choose|k: int| 0 <= k < u.len() && u[k] == x;
            if k > 0 {
                assert(r[k - 1] == x);
                assert(r.contains(x));
                if x != t {
                    let m = choose|m: int| 0 <= m < s.drop_first().len() && s.drop_first()[m] == x;
                    assert(s[m + 1] == x);
                }
            } else {
                assert(s[0] == x);
            }
        }
    } else if s.len() > 0 && s[0] != t {
        assert forall|x: TxModel| #[trigger] insert_sorted(s, t).contains(x) implies s.contains(
            x,
        ) || x == t by {
            let u = seq![t] + s;
            let k = choose|k: int| 0 <= k < u.len() && u[k] == x;
            if k > 0 {
                assert(s[k - 1] == x);
            }
        }
    } else if s.len() == 0 {
        assert forall|x: TxModel| #[trigger] insert_sorted(s, t).contains(x) implies s.contains(
            x,
        ) || x == t by {
            assert(seq![t][0] == t);
        }
    }
}

proof fn lemma_insert_sorted_contains(s: Seq<TxModel>, t: TxModel)
    ensures
        insert_sorted(s, t).contains(t),
    decreases s.len(),
{
    if s.len() == 0 {
        assert(seq![t][0] == t);
    } else if s[0] == t {
    } else if tx_lt(t, s[0]) {
        assert((seq![t] + s)[0] == t);
    } else {
        lemma_insert_sorted_contains(s.drop_first(), t);
        let r = insert_sorted(s.drop_first(), t);
        let k = choose|k: int| 0 <= k < r.len() && r[k] == t;
        assert((seq![s[0]] + r)[k + 1] == t);
    }
}

/// Insertion keeps a sorted, duplicate-free sequence so.
pub proof fn lemma_insert_sorted_keeps_order(s: Seq<TxModel>, t: TxModel)
    requires
        sorted_unique(s),
    ensures
        sorted_unique(insert_sorted(s, t)),
        insert_sorted(s, t).contains(t),
        forall|x: TxModel| s.contains(x) ==> #[trigger] insert_sorted(s, t).contains(x),
    decreases s.len(),
{
    if s.len() == 0 {
        assert(seq![t][0] == t);
    } else if s[0] == t {
        assert forall|x: TxModel| s.contains(x) implies #[trigger] insert_sorted(s, t).contains(x) by {}
    } else if tx_lt(t, s[0]) {
        let u = seq![t] + s;
        assert forall|i: int, j: int| 0 <= i < j < u.len() implies tx_lt(#[trigger] u[i], #[trigger] u[j]) by {
            if i == 0 {
                if j > 1 {
                    assert(tx_lt(s[0], s[j - 1]));
                    lemma_tx_order(t, s[0], s[j - 1]);
                }
            } else {
                assert(u[i] == s[i - 1] && u[j] == s[j - 1]);
            }
        }
        assert(u[0] == t);
        assert forall|x: TxModel| s.contains(x) implies #[trigger] u.contains(x) by {
            let k = choose|k: int| 0 <= k < s.len() && s[k] == x;
            assert(u[k + 1] == x);
        }
    } else {
        let rest = s.drop_first();
        assert(sorted_unique(rest)) by {
            assert forall|i: int, j: int| 0 <= i < j < rest.len() implies tx_lt(#[trigger] rest[i], #[trigger] rest[j]) by {
                assert(rest[i] == s[i + 1] && rest[j] == s[j + 1]);
            }
        }
        lemma_insert_sorted_keeps_order(rest, t);
        lemma_insert_sorted_elements(rest, t);
        lemma_tx_order(s[0], t, t);
        let r = insert_sorted(rest, t);
        let u = seq![s[0]] + r;
        assert(tx_lt(s[0], t));
        assert forall|i: int, j: int| 0 <= i < j < u.len() implies tx_lt(#[trigger] u[i], #[trigger] u[j]) by {
            if i == 0 {
                assert(u[j] == r[j - 1]);
                assert(r.contains(r[j - 1]));
                if r[j - 1] != t {
                    let m = choose|m: int| 0 <= m < rest.len() && rest[m] == r[j - 1];
                    assert(s[m + 1] == r[j - 1]);
                    assert(tx_lt(s[0], s[m + 1]));
                }
            } else {
                assert(u[i] == r[i - 1] && u[j] == r[j - 1]);
            }
        }
        assert(r.contains(t));
        let kt = choose|k: int| 0 <= k < r.len() && r[k] == t;
        assert(u[kt + 1] == t);
        assert forall|x: TxModel| s.contains(x) implies #[trigger] u.contains(x) by {
            let k = choose|k: int| 0 <= k < s.len() && s[k] == x;
            if k == 0 {
                assert(u[0] == x);
            } else {
                assert(rest[k - 1] == x);
                assert(rest.contains(x));
                assert(r.contains(x));
                let m = choose|m: int| 0 <= m < r.len() && r[m] == x;
                assert(u[m + 1] == x);
            }
        }
    }
}

/// Inserting into a sorted sequence without duplicates: `t` goes before the
/// first element that is not smaller, unless that element is `t` itself.
pub open spec fn insert_sorted(s: Seq<TxModel>, t: TxModel) -> Seq<TxModel>
    decreases s.len(),
{
    if s.len() == 0 {
        seq![t]
    } else if s[0] == t {
        s
    } else if tx_lt(t, s[0]) {
        seq![t] + s
    } else {
        seq![s[0]] + insert_sorted(s.drop_first(), t)
    }
}

/// The transactions of `s`, sorted and without duplicates.
pub open spec fn sorted_of(s: Seq<TxModel>) -> Seq<TxModel>
    decreases s.len(),
{
    if s.len() == 0 {
        Seq::empty()
    } else {
        insert_sorted(sorted_of(s.drop_last()), s.last())
    }
}

/// The transactions after `t` is added to `s`: sorted, without duplicates.
pub open spec fn with_transaction(s: Seq<TxModel>, t: TxModel) -> Seq<TxModel> {
    insert_sorted(sorted_of(s), t)
}

/// Adding `t` to `s` `n` times over.
pub open spec fn with_transaction_times(s: Seq<TxModel>, t: TxModel, n: nat) -> Seq<TxModel>
    decreases n,
{
    if n == 0 {
        s
    } else {
        with_transaction(with_transaction_times(s, t, (n - 1) as nat), t)
    }
}

/// The JSON escape of one character: quote and backslash behind a
/// backslash, the usual short forms for backspace, tab, line feed, form feed
/// and carriage return, other control characters as `\u00` and two lowercase
/// hex digits, every other character as itself.
pub open spec fn json_escape(c: char) -> Seq<char> {
    let hex = seq!['0', '1', '2', '3', '4', '5', '6', '7', '8', '9', 'a', 'b', 'c', 'd', 'e', 'f'];
    let n = c as u32;
    if c == '"' {
        seq!['\\', '"']
    } else if c == '\\' {
        seq!['\\', '\\']
    } else if n == 8 {
        seq!['\\', 'b']
    } else if n == 9 {
        seq!['\\', 't']
    } else if n == 10 {
        seq!['\\', 'n']
    } else if n == 12 {
        seq!['\\', 'f']
    } else if n == 13 {
        seq!['\\', 'r']
    } else if n < 32 {
        seq!['\\', 'u', '0', '0', hex[(n / 16) as int], hex[(n % 16) as int]]
    } else {
        seq![c]
    }
}

/// The characters of a string, each escaped.
pub open spec fn json_escaped(s: Seq<char>) -> Seq<char>
    decreases s.len(),
{
    if s.len() == 0 {
        Seq::empty()
    } else {
        json_escaped(s.drop_last()) + json_escape(s.last())
    }
}

/// The JSON text of a string: its escaped characters between double quotes.
pub open spec fn json_quoted(s: Seq<char>) -> Seq<char> {
    "\""@ + json_escaped(s) + "\""@
}

/// The lowercase hexadecimal SHA-256 digest of the UTF-8 bytes of a string.
pub uninterp spec fn sha256_hex(s: Seq<char>) -> Seq<char>;

/// Decimal digits of a natural number.
pub open spec fn decimal(n: nat) -> Seq<char>
    decreases n,
{
    if n < 10 {
        seq![seq!['0', '1', '2', '3', '4', '5', '6', '7', '8', '9'][n as int]]
    } else {
        decimal(n / 10) + seq![seq!['0', '1', '2', '3', '4', '5', '6', '7', '8', '9'][(n
            % 10) as int]]
    }
}

/// Canonical JSON text of a transaction (externally tagged variants).
pub open spec fn tx_json(t: TxModel) -> Seq<char> {
    match t {
        TxModel::MinerReward(name, amount) => "{\"MinerReward\":["@ + json_quoted(name) + ","@
            + decimal(amount as nat) + "]}"@,
        TxModel::Text(text) => "{\"Text\":"@ + json_quoted(text) + "}"@,
        TxModel::Shutdown => "\"Shutdown\""@,
    }
}

/// The JSON texts of transactions, separated by commas.
pub open spec fn txs_json(s: Seq<TxModel>) -> Seq<char>
    decreases s.len(),
{
    if s.len() == 0 {
        Seq::empty()
    } else if s.len() == 1 {
        tx_json(s[0])
    } else {
        txs_json(s.drop_last()) + ","@ + tx_json(s.last())
    }
}

/// Canonical JSON text of a block with its hash field held empty.
pub open spec fn block_json(b: BlockModel) -> Seq<char> {
    "{\"index\":"@ + decimal(b.index as nat) + ",\"proof_of_work\":"@ + decimal(
        b.proof_of_work as nat,
    ) + ",\"previous_hash\":"@ + json_quoted(b.previous_hash)
        + ",\"hash\":\"\",\"transactions\":["@ + txs_json(b.transactions) + "]}"@
}

/// The hash a block ought to carry: the digest of its canonical form.
pub open spec fn block_hash(b: BlockModel) -> Seq<char> {
    sha256_hex(block_json(b))
}

/// A hash meets difficulty `d` when it starts with `d` zero characters.
pub open spec fn meets_difficulty(hash: Seq<char>, d: nat) -> bool {
    d <= hash.len() && forall|i: int| 0 <= i < d ==> hash[i] == '0'
}

/// `s` repeated `n` times.
pub open spec fn repeated(s: Seq<char>, n: nat) -> Seq<char>
    decreases n,
{
    if n == 0 {
        Seq::empty()
    } else {
        repeated(s, (n - 1) as nat) + s
    }
}

/// A block with a different proof-of-work counter and its hash recomputed.
pub open spec fn with_work(b: BlockModel, p: u64) -> BlockModel {
    BlockModel { proof_of_work: p, hash: block_hash(BlockModel { proof_of_work: p, ..b }), ..b }
}

/// Relies on `serde_json::to_string` on a `str`: the string between double
/// quotes with the escapes of `json_escape`. Serialising a `str` into memory
/// cannot fail.
#[verifier::external_body]
fn quote_json(s: &str) -> (r: String)
    ensures
        r@ == json_quoted(s@),
{
    serde_json::to_string(s).unwrap_or_default()
}

/// Relies on `sha2::Sha256` over the string's UTF-8 bytes, and on the lowercase
/// hexadecimal formatting of the digest; the result depends on the text alone.
#[verifier::external_body]
fn sha256_hex_string(s: &str) -> (r: String)
    ensures
        r@ == sha256_hex(s@),
{
    let mut hasher = sha2::Sha256::new();
    hasher.update(s);
    format!("{:x}", hasher.finalize())
}

/// Relies on `u64::to_string`: the decimal digits of the number.
#[verifier::external_body]
fn decimal_string(n: u64) -> (r: String)
    ensures
        r@ == decimal(n as nat),
{
    n.to_string()
}

/// Relies on `<str as PartialOrd>::lt`: strings compare lexicographically by
/// their UTF-8 bytes, which orders them by code point.
#[verifier::external_body]
fn str_lt(a: &str, b: &str) -> (r: bool)
    ensures
        r == lex_lt(a@, b@),
{
    a < b
}

/// Relies on `str::repeat`: the string concatenated `n` times.
#[verifier::external_body]
fn str_repeat(s: &str, n: usize) -> (r: String)
    ensures
        r@ == repeated(s@, n as nat),
{
    s.repeat(n)
}

/// Relies on `str::starts_with` with a string pattern.
#[verifier::external_body]
fn str_starts_with(s: &str, prefix: &str) -> (r: bool)
    ensures
        r == (prefix@.len() <= s@.len() && s@.subrange(0, prefix@.len() as int) == prefix@),
{
    s.starts_with(prefix)
}

proof fn lemma_repeated_zero(n: nat)
    ensures
        repeated("0"@, n) == Seq::new(n, |i: int| '0'),
    decreases n,
{
    reveal_strlit("0");
    if n > 0 {
        lemma_repeated_zero((n - 1) as nat);
    }
    assert(repeated("0"@, n) =~= Seq::new(n, |i: int| '0'));
}

proof fn lemma_insert_prefix(s: Seq<TxModel>, t: TxModel, i: int)
    requires
        0 <= i <= s.len(),
        forall|j: int| 0 <= j < i ==> s[j] != t && !tx_lt(t, s[j]),
    ensures
        insert_sorted(s, t) == s.subrange(0, i) + insert_sorted(s.subrange(i, s.len() as int), t),
    decreases i,
{
    if i == 0 {
        assert(s.subrange(0, 0) + s.subrange(0, s.len() as int) =~= s);
        assert(s.subrange(0, s.len() as int) =~= s);
    } else {
        let r = s.drop_first();
        assert forall|j: int| 0 <= j < i - 1 implies r[j] != t && !tx_lt(t, r[j]) by {
            assert(r[j] == s[j + 1]);
        }
        lemma_insert_prefix(r, t, i - 1);
        assert(r.subrange(i - 1, r.len() as int) =~= s.subrange(i, s.len() as int));
        assert(seq![s[0]] + r.subrange(0, i - 1) =~= s.subrange(0, i));
    }
}

proof fn lemma_sorted_of(s: Seq<TxModel>)
    ensures
        sorted_unique(sorted_of(s)),
        forall|x: TxModel| #[trigger] sorted_of(s).contains(x) <==> s.contains(x),
    decreases s.len(),
{
    if s.len() == 0 {
        assert(sorted_of(s) =~= Seq::<TxModel>::empty());
    } else {
        let p = s.drop_last();
        let t = s.last();
        lemma_sorted_of(p);
        lemma_insert_sorted_keeps_order(sorted_of(p), t);
        lemma_insert_sorted_elements(sorted_of(p), t);
        assert forall|x: TxModel| #[trigger] sorted_of(s).contains(x) <==> s.contains(x) by {
            if s.contains(x) {
                let k = choose|k: int| 0 <= k < s.len() && s[k] == x;
                if k < s.len() - 1 {
                    assert(p[k] == x);
                    assert(sorted_of(p).contains(x));
                }
            }
            if sorted_of(s).contains(x) {
                if x != t {
                    assert(sorted_of(p).contains(x));
                    let k = choose|k: int| 0 <= k < p.len() && p[k] == x;
                    assert(s[k] == x);
                }
            }
        }
    }
}

proof fn lemma_insert_largest(s: Seq<TxModel>, t: TxModel)
    requires
        sorted_unique(s),
        forall|i: int| 0 <= i < s.len() ==> tx_lt(#[trigger] s[i], t),
    ensures
        insert_sorted(s, t) == s.push(t),
    decreases s.len(),
{
    if s.len() == 0 {
        assert(seq![t] =~= s.push(t));
    } else {
        let rest = s.drop_first();
        lemma_tx_order(s[0], s[0], s[0]);
        lemma_tx_order(t, s[0], t);
        assert(tx_lt(s[0], t));
        assert(sorted_unique(rest)) by {
            assert forall|i: int, j: int| 0 <= i < j < rest.len() implies tx_lt(#[trigger] rest[i], #[trigger] rest[j]) by {
                assert(rest[i] == s[i + 1] && rest[j] == s[j + 1]);
            }
        }
        assert forall|i: int| 0 <= i < rest.len() implies tx_lt(#[trigger] rest[i], t) by {
            assert(rest[i] == s[i + 1]);
        }
        lemma_insert_largest(rest, t);
        assert(seq![s[0]] + rest.push(t) =~= s.push(t));
    }
}

proof fn lemma_sorted_of_sorted(u: Seq<TxModel>)
    requires
        sorted_unique(u),
    ensures
        sorted_of(u) == u,
    decreases u.len(),
{
    if u.len() == 0 {
        assert(sorted_of(u) =~= u);
    } else {
        let p = u.drop_last();
        assert(sorted_unique(p)) by {
            assert forall|i: int, j: int| 0 <= i < j < p.len() implies tx_lt(#[trigger] p[i], #[trigger] p[j]) by {
                assert(p[i] == u[i] && p[j] == u[j]);
            }
        }
        lemma_sorted_of_sorted(p);
        assert forall|i: int| 0 <= i < p.len() implies tx_lt(#[trigger] p[i], u.last()) by {
            assert(p[i] == u[i]);
        }
        lemma_insert_largest(p, u.last());
        assert(p.push(u.last()) =~= u);
    }
}

proof fn lemma_insert_present(u: Seq<TxModel>, t: TxModel)
    requires
        sorted_unique(u),
        u.contains(t),
    ensures
        insert_sorted(u, t) == u,
    decreases u.len(),
{
    if u[0] != t {
        let k = choose|k: int| 0 <= k < u.len() && u[k] == t;
        assert(k > 0);
        assert(tx_lt(u[0], u[k]));
        lemma_tx_order(t, u[0], t);
        lemma_tx_order(t, t, t);
        let rest = u.drop_first();
        assert(rest[k - 1] == t);
        assert(sorted_unique(rest)) by {
            assert forall|i: int, j: int| 0 <= i < j < rest.len() implies tx_lt(#[trigger] rest[i], #[trigger] rest[j]) by {
                assert(rest[i] == u[i + 1] && rest[j] == u[j + 1]);
            }
        }
        lemma_insert_present(rest, t);
        assert(seq![u[0]] + rest =~= u);
    }
}

/// What `add_transaction` leaves: sorted, free of duplicates, holding exactly
/// the old transactions and `t`; on a list already so, the insertion alone.
pub proof fn lemma_with_transaction(s: Seq<TxModel>, t: TxModel)
    ensures
        sorted_unique(with_transaction(s, t)),
        forall|x: TxModel|
            #[trigger] with_transaction(s, t).contains(x) <==> (s.contains(x) || x == t),
{
    lemma_sorted_of(s);
    lemma_insert_sorted_keeps_order(sorted_of(s), t);
    lemma_insert_sorted_elements(sorted_of(s), t);
    assert forall|x: TxModel|
        #[trigger] with_transaction(s, t).contains(x) <==> (s.contains(x) || x == t) by {
        if s.contains(x) {
            assert(sorted_of(s).contains(x));
        }
        if with_transaction(s, t).contains(x) && x != t {
            assert(sorted_of(s).contains(x));
        }
    }
}

/// Adding a transaction a second time changes nothing.
pub proof fn lemma_with_transaction_idempotent(s: Seq<TxModel>, t: TxModel)
    ensures
        with_transaction(with_transaction(s, t), t) == with_transaction(s, t),
{
    let u = with_transaction(s, t);
    lemma_with_transaction(s, t);
    assert(u.contains(t));
    lemma_sorted_of_sorted(u);
    lemma_insert_present(u, t);
}

/// Adding the same transaction any positive number of times leaves the same
/// transaction list as adding it once.
pub proof fn lemma_add_transaction_idempotent(s: Seq<TxModel>, t: TxModel, n: nat)
    requires
        n >= 1,
    ensures
        with_transaction_times(s, t, n) == with_transaction(s, t),
    decreases n,
{
    if n == 1 {
        assert(with_transaction_times(s, t, 0) == s);
    } else {
        lemma_add_transaction_idempotent(s, t, (n - 1) as nat);
        lemma_with_transaction_idempotent(s, t);
    }
}

/// The view of a list of transactions.
pub open spec fn tx_view(v: Seq<Transaction>) -> Seq<TxModel> {
    v.map_values(|t: Transaction| t@)
}

/// Inserts `transaction` into a list that is kept as `insert_sorted` builds it.
fn insert_transaction(v: &mut Vec<Transaction>, transaction: Transaction)
    ensures
        tx_view(final(v)@) == insert_sorted(tx_view(old(v)@), transaction@),
{
    let ghost s = tx_view(old(v)@);
    let mut i: usize = 0;
    while i < v.len()
        invariant
            i <= v.len(),
            v@ == old(v)@,
            s == tx_view(v@),
            forall|j: int| 0 <= j < i ==> s[j] != transaction@ && !tx_lt(transaction@, s[j]),
        ensures
            i <= s.len(),
            v@ == old(v)@,
            s == tx_view(v@),
            forall|j: int| 0 <= j < i ==> s[j] != transaction@ && !tx_lt(transaction@, s[j]),
            i == s.len() || (s[i as int] != transaction@ && tx_lt(transaction@, s[i as int])),
        decreases v.len() - i,
    {
        let present = v[i].same_as(&transaction);
        if present {
            proof {
                lemma_insert_prefix(s, transaction@, i as int);
                let rest = s.subrange(i as int, s.len() as int);
                assert(rest[0] == transaction@);
                assert(s.subrange(0, i as int) + rest =~= s);
            }
            return;
        }
        if transaction.less_than(&v[i]) {
            break;
        }
        i = i + 1;
    }
    proof {
        lemma_insert_prefix(s, transaction@, i as int);
        let rest = s.subrange(i as int, s.len() as int);
        if i < s.len() {
            assert(rest[0] == s[i as int]);
            assert(insert_sorted(rest, transaction@) == seq![transaction@] + rest);
        } else {
            assert(rest.len() == 0);
        }
    }
    let ghost t = transaction@;
    v.insert(i, transaction);
    proof {
        let rest = s.subrange(i as int, s.len() as int);
        assert(tx_view(v@) =~= s.subrange(0, i as int) + (seq![t] + rest));
    }
}

proof fn lemma_decimal_len(n: nat)
    ensures
        decimal(n).len() >= 1,
        decimal(n).len() == 1 <==> n < 10,
    decreases n,
{
    if n >= 10 {
        lemma_decimal_len(n / 10);
    }
}

proof fn lemma_decimal_injective(n: nat, m: nat)
    requires
        decimal(n) == decimal(m),
    ensures
        n == m,
    decreases n,
{
    let digits = seq!['0', '1', '2', '3', '4', '5', '6', '7', '8', '9'];
    lemma_decimal_len(n);
    lemma_decimal_len(m);
    if n < 10 {
        assert(decimal(n)[0] == digits[n as int]);
        assert(decimal(m)[0] == digits[m as int]);
    } else {
        let dn = decimal(n);
        let dm = decimal(m);
        assert(dn.last() == digits[(n % 10) as int]);
        assert(dm.last() == digits[(m % 10) as int]);
        assert(dn.drop_last() =~= decimal(n / 10));
        assert(dm.drop_last() =~= decimal(m / 10));
        lemma_decimal_injective(n / 10, m / 10);
    }
}

/// Blocks that differ in their proof-of-work counter alone have different
/// canonical forms, so their hashes differ unless the digest collides.
pub proof fn lemma_work_changes_canonical_form(a: BlockModel, b: BlockModel)
    requires
        a.index == b.index,
        a.previous_hash == b.previous_hash,
        a.transactions == b.transactions,
        a.proof_of_work != b.proof_of_work,
    ensures
        block_json(a) != block_json(b),
{
    let x = "{\"index\":"@ + decimal(a.index as nat) + ",\"proof_of_work\":"@;
    let r = ",\"previous_hash\":"@ + json_quoted(a.previous_hash)
        + ",\"hash\":\"\",\"transactions\":["@ + txs_json(a.transactions) + "]}"@;
    let da = decimal(a.proof_of_work as nat);
    let db = decimal(b.proof_of_work as nat);
    assert(block_json(a) =~= x + da + r);
    assert(block_json(b) =~= x + db + r);
    if block_json(a) == block_json(b) {
        assert(da.len() == db.len());
        assert(da =~= (x + da + r).subrange(x.len() as int, (x.len() + da.len()) as int));
        assert(db =~= (x + db + r).subrange(x.len() as int, (x.len() + db.len()) as int));
        lemma_decimal_injective(a.proof_of_work as nat, b.proof_of_work as nat);
    }
}

impl Transaction {
    /// A copy with the same value.
    pub fn duplicate(&self) -> (r: Transaction)
        ensures
            r@ == self@,
    {
        match self {
            Transaction::MinerReward(name, amount) => Transaction::MinerReward(
                name.clone(),
                *amount,
            ),
            Transaction::Text(text) => Transaction::Text(text.clone()),
            Transaction::Shutdown => Transaction::Shutdown,
        }
    }

    /// Equality of values.
    pub fn same_as(&self, other: &Transaction) -> (r: bool)
        ensures
            r == (self@ == other@),
    {
        match (self, other) {
            (Transaction::MinerReward(n1, x1), Transaction::MinerReward(n2, x2)) => {
                n1.eq(n2) && *x1 == *x2
            },
            (Transaction::Text(s1), Transaction::Text(s2)) => s1.eq(s2),
            (Transaction::Shutdown, Transaction::Shutdown) => true,
            _ => false,
        }
    }

    /// The transaction order: by variant, then field by field.
    pub fn less_than(&self, other: &Transaction) -> (r: bool)
        ensures
            r == tx_lt(self@, other@),
    {
        match (self, other) {
            (Transaction::MinerReward(n1, x1), Transaction::MinerReward(n2, x2)) => {
                str_lt(n1.as_str(), n2.as_str()) || (n1.eq(n2) && *x1 < *x2)
            },
            (Transaction::Text(s1), Transaction::Text(s2)) => str_lt(s1.as_str(), s2.as_str()),
            (Transaction::MinerReward(_, _), _) => true,
            (Transaction::Text(_), Transaction::Shutdown) => true,
            _ => false,
        }
    }

    /// Canonical JSON text of the transaction.
    pub fn to_json(&self) -> (r: String)
        ensures
            r@ == tx_json(self@),
    {
        match self {
            Transaction::MinerReward(name, amount) => {
                let mut s = String::from_str("{\"MinerReward\":[");
                s.append(quote_json(name.as_str()).as_str());
                s.append(",");
                s.append(decimal_string(*amount).as_str());
                s.append("]}");
                s
            },
            Transaction::Text(text) => {
                let mut s = String::from_str("{\"Text\":");
                s.append(quote_json(text.as_str()).as_str());
                s.append("}");
                s
            },
            Transaction::Shutdown => String::from_str("\"Shutdown\""),
        }
    }
}

impl Block {
    /// Whether the block already holds a transaction of the same value.
    pub fn has_transaction(&self, t: &Transaction) -> (r: bool)
        ensures
            r == self@.transactions.contains(t@),
    {
        let mut i: usize = 0;
        while i < self.transactions.len()
            invariant
                i <= self.transactions.len(),
                forall|j: int| 0 <= j < i ==> self@.transactions[j] != t@,
            decreases self.transactions.len() - i,
        {
            if self.transactions[i].same_as(t) {
                assert(self@.transactions[i as int] == t@);
                return true;
            }
            i = i + 1;
        }
        false
    }

    /// A copy with the same value.
    pub fn duplicate(&self) -> (r: Block)
        ensures
            r@ == self@,
    {
        let mut transactions: Vec<Transaction> = Vec::new();
        let mut i: usize = 0;
        while i < self.transactions.len()
            invariant
                i <= self.transactions.len(),
                transactions.len() == i,
                forall|j: int| 0 <= j < i ==> transactions@[j]@ == self.transactions@[j]@,
            decreases self.transactions.len() - i,
        {
            transactions.push(self.transactions[i].duplicate());
            i = i + 1;
        }
        assert(transactions@.map_values(|t: Transaction| t@) =~= self@.transactions);
        Block {
            index: self.index,
            proof_of_work: self.proof_of_work,
            previous_hash: self.previous_hash.clone(),
            hash: self.hash.clone(),
            transactions,
        }
    }

    /// The canonical JSON text of the block with its hash field held empty.
    pub fn canonical_json(&self) -> (r: String)
        ensures
            r@ == block_json(self@),
    {
        let mut s = String::from_str("{\"index\":");
        s.append(decimal_string(self.index).as_str());
        s.append(",\"proof_of_work\":");
        s.append(decimal_string(self.proof_of_work).as_str());
        s.append(",\"previous_hash\":");
        s.append(quote_json(self.previous_hash.as_str()).as_str());
        s.append(",\"hash\":\"\",\"transactions\":[");
        let ghost head = s@;
        let ghost txs = self@.transactions;
        let mut i: usize = 0;
        while i < self.transactions.len()
            invariant
                i <= self.transactions.len(),
                txs == self@.transactions,
                s@ == head + txs_json(txs.subrange(0, i as int)),
            decreases self.transactions.len() - i,
        {
            proof {
                assert(txs.subrange(0, i + 1).drop_last() =~= txs.subrange(0, i as int));
            }
            if i > 0 {
                s.append(",");
            }
            s.append(self.transactions[i].to_json().as_str());
            i = i + 1;
        }
        proof {
            assert(txs.subrange(0, i as int) =~= txs);
        }
        s.append("]}");
        s
    }

    /// The digest of the block's canonical form; the stored hash plays no part.
    pub fn calculate_hash(&self) -> (r: String)
        ensures
            r@ == block_hash(self@),
    {
        let text = self.canonical_json();
        sha256_hex_string(text.as_str())
    }

    /// A fresh block at `index` linked to `previous_hash`, with no work done,
    /// an empty hash and no transactions.
    pub fn new(index: u64, previous_hash: String) -> (r: Block)
        ensures
            r@ == (BlockModel {
                index,
                proof_of_work: 0,
                previous_hash: previous_hash@,
                hash: Seq::empty(),
                transactions: Seq::empty(),
            }),
    {
        let r = Block {
            index,
            proof_of_work: 0,
            previous_hash,
            hash: String::new(),
            transactions: Vec::new(),
        };
        assert(r@.transactions =~= Seq::empty());
        r
    }

    /// Whether the stored hash starts with `difficulty` zero characters.
    pub fn is_mined(&self, difficulty: usize) -> (r: bool)
        ensures
            r == meets_difficulty(self@.hash, difficulty as nat),
    {
        let zeros = str_repeat("0", difficulty);
        proof {
            lemma_repeated_zero(difficulty as nat);
        }
        let r = str_starts_with(self.hash.as_str(), zeros.as_str());
        proof {
            if r {
                assert forall|i: int| 0 <= i < difficulty implies self@.hash[i] == '0' by {
                    assert(self@.hash.subrange(0, difficulty as int)[i] == zeros@[i]);
                }
            } else if meets_difficulty(self@.hash, difficulty as nat) {
                assert(self@.hash.subrange(0, difficulty as int) =~= zeros@);
            }
        }
        r
    }

    /// One mining step: the counter goes up by one and the hash is recomputed.
    pub fn mine_once(&mut self)
        requires
            old(self).proof_of_work < u64::MAX,
        ensures
            final(self)@ == with_work(old(self)@, (old(self).proof_of_work + 1) as u64),
    {
        self.proof_of_work = self.proof_of_work + 1;
        self.hash = self.calculate_hash();
    }

    /// Mines until the hash meets `difficulty`. A block that already meets it
    /// is left alone. The search gives up only when the counter is exhausted.
    pub fn mine(&mut self, difficulty: usize)
        ensures
            final(self).proof_of_work == old(self).proof_of_work ==> final(self)@ == old(self)@,
            final(self).proof_of_work > old(self).proof_of_work ==> final(self)@ == with_work(
                old(self)@,
                final(self).proof_of_work,
            ),
            meets_difficulty(old(self)@.hash, difficulty as nat) ==> final(self).proof_of_work
                == old(self).proof_of_work,
            meets_difficulty(final(self)@.hash, difficulty as nat) || final(self).proof_of_work
                == u64::MAX,
            old(self).proof_of_work <= final(self).proof_of_work,
            forall|p: u64|
                old(self).proof_of_work < p < final(self).proof_of_work ==> !meets_difficulty(
                    #[trigger] block_hash(with_work(old(self)@, p)),
                    difficulty as nat,
                ),
    {
        let ghost start = self@;
        let mut mined = self.is_mined(difficulty);
        while !mined && self.proof_of_work < u64::MAX
            invariant
                mined == meets_difficulty(self@.hash, difficulty as nat),
                start.proof_of_work <= self.proof_of_work,
                meets_difficulty(start.hash, difficulty as nat) ==> self@ == start,
                self.proof_of_work == start.proof_of_work ==> self@ == start,
                self.proof_of_work > start.proof_of_work ==> self@ == with_work(
                    start,
                    self.proof_of_work,
                ),
                forall|p: u64|
                    start.proof_of_work < p < self.proof_of_work ==> !meets_difficulty(
                        #[trigger] block_hash(with_work(start, p)),
                        difficulty as nat,
                    ),
            decreases u64::MAX - self.proof_of_work,
        {
            proof {
                if self.proof_of_work > start.proof_of_work {
                    assert(self@.hash == block_hash(with_work(start, self.proof_of_work)));
                }
            }
            self.mine_once();
            proof {
                assert(with_work(self@, self.proof_of_work).hash == with_work(start, self.proof_of_work).hash);
                assert(self@ =~= with_work(start, self.proof_of_work));
            }
            mined = self.is_mined(difficulty);
        }
    }

    /// Inserts a transaction, then sorts the transactions and removes
    /// duplicates; the other fields are left as they were.
    pub fn add_transaction(&mut self, transaction: Transaction)
        ensures
            final(self)@ == (BlockModel {
                transactions: with_transaction(old(self)@.transactions, transaction@),
                ..old(self)@
            }),
            sorted_unique(final(self)@.transactions),
            forall|x: TxModel|
                #[trigger] final(self)@.transactions.contains(x) <==> (old(
                    self,
                )@.transactions.contains(x) || x == transaction@),
            sorted_unique(old(self)@.transactions) ==> final(self)@.transactions == insert_sorted(
                old(self)@.transactions,
                transaction@,
            ),
    {
        let ghost s = old(self)@.transactions;
        let mut sorted: Vec<Transaction> = Vec::new();
        let mut i: usize = 0;
        while i < self.transactions.len()
            invariant
                i <= self.transactions.len(),
                self@ == old(self)@,
                s == self@.transactions,
                tx_view(sorted@) == sorted_of(s.subrange(0, i as int)),
            decreases self.transactions.len() - i,
        {
            proof {
                assert(s.subrange(0, i + 1).drop_last() =~= s.subrange(0, i as int));
                assert(s.subrange(0, i + 1).last() == s[i as int]);
            }
            insert_transaction(&mut sorted, self.transactions[i].duplicate());
            i = i + 1;
        }
        proof {
            assert(s.subrange(0, i as int) =~= s);
            lemma_with_transaction(s, transaction@);
            if sorted_unique(s) {
                lemma_sorted_of_sorted(s);
            }
        }
        insert_transaction(&mut sorted, transaction);
        self.transactions = sorted;
    }
}

} // verus!
