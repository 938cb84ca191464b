//! Data model of the registry: addresses, asset specifications, the recipe
//! metadata and the durable Transform record.

use vstd::prelude::*;

verus! {

/// A 32-byte identifier of an account or of an asset type.
#[derive(Clone, Debug, PartialEq, Eq)]
pub struct Address {
    pub bytes: Vec<u8>,
}

impl View for Address {
    type V = Seq<u8>;

    open spec fn view(&self) -> Seq<u8> {
        self.bytes@
    }
}

impl Address {
    /// An address is exactly 32 bytes long.
    pub open spec fn wf(self) -> bool {
        self@.len() == 32
    }

    /// Builds an address from its raw bytes.
    pub fn new(bytes: Vec<u8>) -> (r: Address)
        ensures
            r@ == bytes@,
    {
        Address { bytes }
    }

    /// Decides equality of two addresses by their bytes.
    pub fn eq_bytes(&self, other: &Address) -> (r: bool)
        ensures
            r == (self@ == other@),
    {
        bytes_eq(&self.bytes, &other.bytes)
    }
}

/// One asset slot of a recipe: the asset type it names and the quantity
/// the transform consumes or produces of it.
#[derive(Clone, Debug, PartialEq, Eq)]
pub struct Token {
    pub address: Address,
    pub amount: u64,
}

/// Mathematical value of a `Token`.
#[verifier::ext_equal]
pub struct TokenV {
    pub address: Seq<u8>,
    pub amount: u64,
}

impl View for Token {
    type V = TokenV;

    open spec fn view(&self) -> TokenV {
        TokenV { address: self.address@, amount: self.amount }
    }
}

/// Caller-supplied descriptive payload of a record; it carries no behavioral
/// invariant beyond being immutable once the record is committed.
#[derive(Clone, Debug, PartialEq, Eq)]
pub struct TransformMetadata {
    pub name: Vec<u8>,
}

impl View for TransformMetadata {
    type V = Seq<u8>;

    open spec fn view(&self) -> Seq<u8> {
        self.name@
    }
}

/// The durable record: an initialization flag, the metadata, and the input
/// and output asset specifications, each held sorted by asset address.
#[derive(Clone, Debug, PartialEq, Eq)]
pub struct Transform {
    pub initialized: bool,
    pub metadata: TransformMetadata,
    pub inputs: Vec<Token>,
    pub outputs: Vec<Token>,
}

/// Mathematical value of a `Transform`.
#[verifier::ext_equal]
pub struct TransformV {
    pub initialized: bool,
    pub name: Seq<u8>,
    pub inputs: Seq<TokenV>,
    pub outputs: Seq<TokenV>,
}

impl View for Transform {
    type V = TransformV;

    open spec fn view(&self) -> TransformV {
        TransformV {
            initialized: self.initialized,
            name: self.metadata@,
            inputs: tokens_view(self.inputs@),
            outputs: tokens_view(self.outputs@),
        }
    }
}

/// Values of a sequence of asset slots.
pub open spec fn tokens_view(s: Seq<Token>) -> Seq<TokenV> {
    s.map_values(|t: Token| t@)
}

/// Values of a sequence of addresses.
pub open spec fn addrs_view(s: Seq<Address>) -> Seq<Seq<u8>> {
    s.map_values(|a: Address| a@)
}

/// Lexicographic strict order on byte strings: the order in which a record's
/// asset entries are stored.
pub open spec fn lex_lt(a: Seq<u8>, b: Seq<u8>) -> bool
    decreases a.len(),
{
    if b.len() == 0 {
        false
    } else if a.len() == 0 {
        true
    } else if a[0] < b[0] {
        true
    } else if a[0] > b[0] {
        false
    } else {
        lex_lt(a.skip(1), b.skip(1))
    }
}

/// The entries are strictly ascending by address, so each address appears in
/// at most one entry of the mapping.
pub open spec fn entries_sorted(s: Seq<TokenV>) -> bool {
    forall|i: int| 0 <= i && i + 1 < s.len() ==> lex_lt((#[trigger] s[i]).address, s[i + 1].address)
}

/// A well-formed mapping: strictly sorted, and every address 32 bytes long.
pub open spec fn entries_wf(s: Seq<TokenV>) -> bool {
    &&& entries_sorted(s)
    &&& forall|i: int| 0 <= i < s.len() ==> (#[trigger] s[i]).address.len() == 32
}

/// A well-formed record value: both mappings well formed, and every
/// length-prefixed part short enough for its 32-bit length prefix.
pub open spec fn record_wf(t: TransformV) -> bool {
    &&& t.name.len() < 0x1_0000_0000
    &&& t.inputs.len() < 0x1_0000_0000
    &&& t.outputs.len() < 0x1_0000_0000
    &&& entries_wf(t.inputs)
    &&& entries_wf(t.outputs)
}

impl Transform {
    pub open spec fn wf(self) -> bool {
        record_wf(self@)
    }
}

proof fn lemma_lex_lt_irrefl(a: Seq<u8>)
    ensures
        !lex_lt(a, a),
    decreases a.len(),
{
    if a.len() > 0 {
        lemma_lex_lt_irrefl(a.skip(1));
    }
}

proof fn lemma_lex_lt_trans(a: Seq<u8>, b: Seq<u8>, c: Seq<u8>)
    requires
        lex_lt(a, b),
        lex_lt(b, c),
    ensures
        lex_lt(a, c),
    decreases a.len(),
{
    if a.len() > 0 {
        if a[0] == b[0] && b[0] == c[0] {
            lemma_lex_lt_trans(a.skip(1), b.skip(1), c.skip(1));
        }
    }
}

proof fn lemma_sorted_chain(s: Seq<TokenV>, i: int, j: int)
    requires
        entries_sorted(s),
        0 <= i < j < s.len(),
    ensures
        lex_lt(s[i].address, s[j].address),
    decreases j - i,
{
    if j > i + 1 {
        lemma_sorted_chain(s, i, j - 1);
        lemma_lex_lt_trans(s[i].address, s[j - 1].address, s[j].address);
    }
}

/// Within one well-formed mapping each asset address appears at most once:
/// the entries are strictly ascending, so distinct slots name distinct
/// addresses.
pub proof fn lemma_entries_unique(s: Seq<TokenV>)
    requires
        entries_sorted(s),
    ensures
        forall|i: int, j: int|
            0 <= i < j < s.len() ==> (#[trigger] s[i]).address != (#[trigger] s[j]).address,
{
    assert forall|i: int, j: int|
        0 <= i < j < s.len() implies (#[trigger] s[i]).address != (#[trigger] s[j]).address by {
        lemma_sorted_chain(s, i, j);
        lemma_lex_lt_irrefl(s[i].address);
    };
}

/// Decides equality of two byte strings.
pub fn bytes_eq(a: &Vec<u8>, b: &Vec<u8>) -> (r: bool)
    ensures
        r == (a@ == b@),
{
    if a.len() != b.len() {
        return false;
    }
    let mut i: usize = 0;
    while i < a.len()
        invariant
            a@.len() == b@.len(),
            i <= a@.len(),
            forall|j: int| 0 <= j < i ==> a@[j] == b@[j],
        decreases a@.len() - i,
    {
        if a[i] != b[i] {
            return false;
        }
        i += 1;
    }
    proof {
        assert(a@ =~= b@);
    }
    true
}

/// Decides `lex_lt` on byte vectors.
pub fn bytes_lt(a: &Vec<u8>, b: &Vec<u8>) -> (r: bool)
    ensures
        r == lex_lt(a@, b@),
{
    proof {
        assert(a@.skip(0) =~= a@);
        assert(b@.skip(0) =~= b@);
    }
    let mut i: usize = 0;
    while i < a.len() && i < b.len()
        invariant
            i <= a.len(),
            i <= b.len(),
            lex_lt(a@, b@) == lex_lt(a@.skip(i as int), b@.skip(i as int)),
        decreases a.len() - i,
    {
        if a[i] < b[i] {
            return true;
        }
        if a[i] > b[i] {
            return false;
        }
        proof {
            assert(a@.skip(i as int).skip(1) =~= a@.skip(i as int + 1));
            assert(b@.skip(i as int).skip(1) =~= b@.skip(i as int + 1));
        }
        i += 1;
    }
    a.len() < b.len()
}

/// Copies a byte vector.
pub fn copy_bytes(v: &Vec<u8>) -> (r: Vec<u8>)
    ensures
        r@ == v@,
{
    let mut out: Vec<u8> = Vec::new();
    let mut i: usize = 0;
    while i < v.len()
        invariant
            i <= v@.len(),
            out@ == v@.subrange(0, i as int),
        decreases v@.len() - i,
    {
        out.push(v[i]);
        proof {
            assert(v@.subrange(0, i as int).push(v@[i as int]) =~= v@.subrange(0, i as int + 1));
        }
        i += 1;
    }
    proof {
        assert(v@.subrange(0, v@.len() as int) =~= v@);
    }
    out
}

/// Copies an asset slot.
pub fn copy_token(t: &Token) -> (r: Token)
    ensures
        r@ == t@,
{
    Token { address: Address { bytes: copy_bytes(&t.address.bytes) }, amount: t.amount }
}

/// Copies a sequence of asset slots, keeping their values and order.
pub fn copy_tokens(v: &Vec<Token>) -> (r: Vec<Token>)
    ensures
        tokens_view(r@) == tokens_view(v@),
{
    let mut out: Vec<Token> = Vec::new();
    let mut i: usize = 0;
    while i < v.len()
        invariant
            i <= v@.len(),
            out@.len() == i,
            forall|j: int| 0 <= j < i ==> (#[trigger] out@[j])@ == v@[j]@,
        decreases v@.len() - i,
    {
        out.push(copy_token(&v[i]));
        i += 1;
    }
    proof {
        assert(tokens_view(out@) =~= tokens_view(v@));
    }
    out
}

} // verus!
