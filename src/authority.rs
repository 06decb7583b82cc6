use vstd::prelude::*;
use vstd::string::StringSliceAdditionalSpecFns;
use vstd::utf8::encode_utf8;
use sha2::Digest;

verus! {

/// Why an authority unit could not be constructed.
#[derive(Debug, Clone)]
pub enum AuthorityError {
    NegativePrice(i64),
    EmptyScope,
    EmptyDelegationChain,
}

/// The literal scope that authorizes every action scope.
pub open spec fn wildcard_scope() -> Seq<char> {
    seq!['a', 'n', 'y']
}

/// The mathematical content of an authority unit.
pub struct AuthorityUnitView {
    pub id: Seq<char>,
    pub scope: Seq<char>,
    pub delegation_chain: Seq<Seq<char>>,
    pub price: int,
    pub timestamp: int,
    pub prev_hash: Option<Seq<char>>,
}

/// A single-use, scope-bound capability. The timestamp is the issuance time
/// in whole seconds since the Unix epoch.
#[derive(Debug)]
pub struct AuthorityUnit {
    pub id: String,
    pub scope: String,
    pub delegation_chain: Vec<String>,
    pub price: i64,
    pub timestamp: i64,
    pub prev_hash: Option<String>,
}

pub open spec fn opt_view(o: Option<String>) -> Option<Seq<char>> {
    match o {
        Some(s) => Some(s@),
        None => None,
    }
}

impl View for AuthorityUnit {
    type V = AuthorityUnitView;

    open spec fn view(&self) -> AuthorityUnitView {
        AuthorityUnitView {
            id: self.id@,
            scope: self.scope@,
            delegation_chain: self.delegation_chain@.map_values(|s: String| s@),
            price: self.price as int,
            timestamp: self.timestamp as int,
            prev_hash: opt_view(self.prev_hash),
        }
    }
}

impl AuthorityUnitView {
    /// The construction invariants: a non-negative price, a non-empty scope
    /// and a non-empty delegation chain.
    pub open spec fn wf(self) -> bool {
        self.price >= 0 && self.scope.len() > 0 && self.delegation_chain.len() > 0
    }

    /// Age check: the unit is valid at `now` when at most `max_age` seconds
    /// have passed since its timestamp (a future timestamp is valid too).
    pub open spec fn valid_at(self, now: int, max_age: int) -> bool {
        now - self.timestamp <= max_age
    }

    /// The unit may authorize an action of scope `action_scope`.
    pub open spec fn consumes(self, action_scope: Seq<char>) -> bool {
        self.scope == action_scope || self.scope == wildcard_scope()
    }

    /// The canonical byte string that the fingerprint digests:
    /// `id|scope|chain|price|timestamp|prev`, each chain element framed by its length.
    pub open spec fn canonical_bytes(self) -> Seq<u8> {
        encode_utf8(self.id) + seq![124u8] + encode_utf8(self.scope) + seq![124u8] + chain_bytes(
            self.delegation_chain,
        ) + seq![124u8] + signed_decimal(self.price) + seq![124u8] + signed_decimal(
            self.timestamp,
        ) + seq![124u8] + rendered_prev(self.prev_hash)
    }
}

/// A unit is still valid exactly `max_age` seconds after its timestamp, and
/// no longer one second later.
pub proof fn lemma_validity_boundary(au: AuthorityUnitView, max_age: int)
    ensures
        au.valid_at(au.timestamp + max_age, max_age),
        !au.valid_at(au.timestamp + max_age + 1, max_age),
{
}

/// Units with equal fields have equal fingerprints.
pub proof fn lemma_fingerprint_determined(a: AuthorityUnitView, b: AuthorityUnitView)
    requires
        a == b,
    ensures
        sha256_hex(a.canonical_bytes()) == sha256_hex(b.canonical_bytes()),
{
}

/// How many fields differ between two units.
pub open spec fn differing_fields(u: AuthorityUnitView, v: AuthorityUnitView) -> nat {
    (if u.id != v.id { 1nat } else { 0nat }) + (if u.scope != v.scope { 1nat } else { 0nat }) + (
    if u.delegation_chain != v.delegation_chain { 1nat } else { 0nat }) + (
    if u.price != v.price { 1nat } else { 0nat }) + (if u.timestamp != v.timestamp { 1nat } else { 0nat }) + (
    if u.prev_hash != v.prev_hash { 1nat } else { 0nat })
}

/// Units that differ in exactly one field have different canonical bytes, so
/// their fingerprints differ unless the digest collides.
pub proof fn lemma_single_field_change(u: AuthorityUnitView, v: AuthorityUnitView)
    requires
        differing_fields(u, v) == 1,
    ensures
        u.canonical_bytes() != v.canonical_bytes(),
{
    let bar = seq![124u8];
    if u.canonical_bytes() == v.canonical_bytes() {
        let chain = chain_bytes(u.delegation_chain);
        if u.id != v.id {
            let b = bar + encode_utf8(u.scope) + bar + chain + bar + signed_decimal(u.price) + bar
                + signed_decimal(u.timestamp) + bar + rendered_prev(u.prev_hash);
            assert(u.canonical_bytes() =~= Seq::<u8>::empty() + encode_utf8(u.id) + b);
            assert(v.canonical_bytes() =~= Seq::<u8>::empty() + encode_utf8(v.id) + b);
            lemma_cancel(Seq::<u8>::empty(), encode_utf8(u.id), encode_utf8(v.id), b);
            lemma_encode_injective(u.id, v.id);
        } else if u.scope != v.scope {
            let a = encode_utf8(u.id) + bar;
            let b = bar + chain + bar + signed_decimal(u.price) + bar + signed_decimal(u.timestamp)
                + bar + rendered_prev(u.prev_hash);
            assert(u.canonical_bytes() =~= a + encode_utf8(u.scope) + b);
            assert(v.canonical_bytes() =~= a + encode_utf8(v.scope) + b);
            lemma_cancel(a, encode_utf8(u.scope), encode_utf8(v.scope), b);
            lemma_encode_injective(u.scope, v.scope);
        } else if u.delegation_chain != v.delegation_chain {
            let a = encode_utf8(u.id) + bar + encode_utf8(u.scope) + bar;
            let b = bar + signed_decimal(u.price) + bar + signed_decimal(u.timestamp) + bar
                + rendered_prev(u.prev_hash);
            assert(u.canonical_bytes() =~= a + chain_bytes(u.delegation_chain) + b);
            assert(v.canonical_bytes() =~= a + chain_bytes(v.delegation_chain) + b);
            lemma_cancel(a, chain_bytes(u.delegation_chain), chain_bytes(v.delegation_chain), b);
            lemma_chain_injective(u.delegation_chain, v.delegation_chain);
        } else if u.price != v.price {
            let a = encode_utf8(u.id) + bar + encode_utf8(u.scope) + bar + chain + bar;
            let b = bar + signed_decimal(u.timestamp) + bar + rendered_prev(u.prev_hash);
            assert(u.canonical_bytes() =~= a + signed_decimal(u.price) + b);
            assert(v.canonical_bytes() =~= a + signed_decimal(v.price) + b);
            lemma_cancel(a, signed_decimal(u.price), signed_decimal(v.price), b);
            lemma_signed_decimal_injective(u.price, v.price);
        } else if u.timestamp != v.timestamp {
            let a = encode_utf8(u.id) + bar + encode_utf8(u.scope) + bar + chain + bar
                + signed_decimal(u.price) + bar;
            let b = bar + rendered_prev(u.prev_hash);
            assert(u.canonical_bytes() =~= a + signed_decimal(u.timestamp) + b);
            assert(v.canonical_bytes() =~= a + signed_decimal(v.timestamp) + b);
            lemma_cancel(a, signed_decimal(u.timestamp), signed_decimal(v.timestamp), b);
            lemma_signed_decimal_injective(u.timestamp, v.timestamp);
        } else {
            let a = encode_utf8(u.id) + bar + encode_utf8(u.scope) + bar + chain + bar
                + signed_decimal(u.price) + bar + signed_decimal(u.timestamp) + bar;
            assert(u.canonical_bytes() =~= a + rendered_prev(u.prev_hash) + Seq::<u8>::empty());
            assert(v.canonical_bytes() =~= a + rendered_prev(v.prev_hash) + Seq::<u8>::empty());
            lemma_cancel(a, rendered_prev(u.prev_hash), rendered_prev(v.prev_hash), Seq::<u8>::empty());
            lemma_rendered_prev_injective(u.prev_hash, v.prev_hash);
        }
    }
}

proof fn lemma_cancel(a: Seq<u8>, x: Seq<u8>, y: Seq<u8>, b: Seq<u8>)
    requires
        a + x + b == a + y + b,
    ensures
        x == y,
{
    let l1 = a + x + b;
    let l2 = a + y + b;
    assert(l1.len() == a.len() + x.len() + b.len());
    assert(l2.len() == a.len() + y.len() + b.len());
    assert(x.len() == y.len());
    assert(x =~= l1.subrange(a.len() as int, (a.len() + x.len()) as int));
    assert(y =~= l2.subrange(a.len() as int, (a.len() + y.len()) as int));
}

proof fn lemma_chain_push(items: Seq<Seq<char>>, x: Seq<char>)
    ensures
        chain_bytes(items.push(x)) == chain_bytes(items) + framed(x),
    decreases items.len(),
{
    if items.len() == 0 {
        assert(items.push(x).drop_first() =~= Seq::<Seq<char>>::empty());
        assert(chain_bytes(items.push(x).drop_first()) == Seq::<u8>::empty());
        assert(items.push(x)[0] == x);
        assert(chain_bytes(items.push(x)) =~= framed(x));
    } else {
        assert(items.push(x).drop_first() =~= items.drop_first().push(x));
        lemma_chain_push(items.drop_first(), x);
        assert(chain_bytes(items.push(x)) =~= chain_bytes(items) + framed(x));
    }
}

/// A framed element followed by anything can be split back into the element
/// and the rest.
proof fn lemma_framed_prefix(x: Seq<char>, p: Seq<u8>, y: Seq<char>, q: Seq<u8>)
    requires
        framed(x) + p == framed(y) + q,
    ensures
        x == y,
        p == q,
{
    let ex = encode_utf8(x);
    let ey = encode_utf8(y);
    let dx = decimal(ex.len());
    let dy = decimal(ey.len());
    let l = framed(x) + p;
    assert(l =~= dx + seq![58u8] + ex + p);
    assert(l =~= dy + seq![58u8] + ey + q);
    lemma_decimal_digits(ex.len());
    lemma_decimal_digits(ey.len());
    if dx.len() < dy.len() {
        assert(l[dx.len() as int] == 58u8);
        assert(l[dx.len() as int] == dy[dx.len() as int]);
    } else if dy.len() < dx.len() {
        assert(l[dy.len() as int] == 58u8);
        assert(l[dy.len() as int] == dx[dy.len() as int]);
    }
    assert(dx.len() == dy.len());
    assert(dx =~= l.subrange(0, dx.len() as int));
    assert(dy =~= l.subrange(0, dy.len() as int));
    lemma_decimal_injective(ex.len(), ey.len());
    let start: int = dx.len() as int + 1;
    assert(ex =~= l.subrange(start, start + ex.len()));
    assert(ey =~= l.subrange(start, start + ey.len()));
    lemma_encode_injective(x, y);
    assert(p =~= l.subrange(start + ex.len(), l.len() as int));
    assert(q =~= l.subrange(start + ey.len(), l.len() as int));
}

proof fn lemma_chain_injective(a: Seq<Seq<char>>, b: Seq<Seq<char>>)
    requires
        chain_bytes(a) == chain_bytes(b),
    ensures
        a == b,
    decreases a.len(),
{
    if a.len() == 0 && b.len() > 0 {
        assert(chain_bytes(b).len() >= framed(b[0]).len());
    } else if b.len() == 0 && a.len() > 0 {
        assert(chain_bytes(a).len() >= framed(a[0]).len());
    } else if a.len() > 0 {
        lemma_framed_prefix(a[0], chain_bytes(a.drop_first()), b[0], chain_bytes(b.drop_first()));
        lemma_chain_injective(a.drop_first(), b.drop_first());
        assert(a =~= seq![a[0]] + a.drop_first());
        assert(b =~= seq![b[0]] + b.drop_first());
    } else {
        assert(a =~= b);
    }
}

proof fn lemma_encode_injective(x: Seq<char>, y: Seq<char>)
    requires
        encode_utf8(x) == encode_utf8(y),
    ensures
        x == y,
{
    vstd::utf8::encode_utf8_decode_utf8(x);
    vstd::utf8::encode_utf8_decode_utf8(y);
}

proof fn lemma_decimal_digits(n: nat)
    ensures
        decimal(n).len() >= 1,
        n >= 10 ==> decimal(n).len() >= 2,
        forall|i: int| 0 <= i < decimal(n).len() ==> 48 <= #[trigger] decimal(n)[i] <= 57,
    decreases n,
{
    if n >= 10 {
        lemma_decimal_digits(n / 10);
    }
}

proof fn lemma_decimal_injective(a: nat, b: nat)
    requires
        decimal(a) == decimal(b),
    ensures
        a == b,
    decreases a,
{
    lemma_decimal_digits(a);
    lemma_decimal_digits(b);
    if a >= 10 && b >= 10 {
        assert(decimal(a).drop_last() =~= decimal(a / 10));
        assert(decimal(b).drop_last() =~= decimal(b / 10));
        lemma_decimal_injective(a / 10, b / 10);
        assert(decimal(a).last() == decimal(b).last());
        assert(decimal(a).last() == (a % 10 + 48) as u8);
        assert(decimal(b).last() == (b % 10 + 48) as u8);
        assert(a % 10 == b % 10);
        assert(a == 10 * (a / 10) + a % 10) by (nonlinear_arith);
        assert(b == 10 * (b / 10) + b % 10) by (nonlinear_arith);
    } else if a >= 10 {
        assert(decimal(b).len() == 1);
    } else if b >= 10 {
        assert(decimal(a).len() == 1);
    } else {
        assert(decimal(a)[0] == (a + 48) as u8);
        assert(decimal(b)[0] == (b + 48) as u8);
        assert(decimal(a)[0] == decimal(b)[0]);
    }
}

proof fn lemma_signed_decimal_injective(a: int, b: int)
    requires
        signed_decimal(a) == signed_decimal(b),
    ensures
        a == b,
{
    if a < 0 && b < 0 {
        assert(decimal((-a) as nat) =~= signed_decimal(a).drop_first());
        assert(decimal((-b) as nat) =~= signed_decimal(b).drop_first());
        lemma_decimal_injective((-a) as nat, (-b) as nat);
    } else if a < 0 {
        lemma_decimal_digits(b as nat);
        assert(signed_decimal(a)[0] == 45u8);
        assert(signed_decimal(b)[0] == decimal(b as nat)[0]);
    } else if b < 0 {
        lemma_decimal_digits(a as nat);
        assert(signed_decimal(b)[0] == 45u8);
        assert(signed_decimal(a)[0] == decimal(a as nat)[0]);
    } else {
        lemma_decimal_injective(a as nat, b as nat);
    }
}

proof fn lemma_rendered_prev_injective(p: Option<Seq<char>>, q: Option<Seq<char>>)
    requires
        rendered_prev(p) == rendered_prev(q),
    ensures
        p == q,
{
    match (p, q) {
        (Some(x), Some(y)) => {
            let pre = seq![83u8, 111u8, 109u8, 101u8, 40u8, 34u8];
            let post = seq![34u8, 41u8];
            lemma_cancel(pre, encode_utf8(x), encode_utf8(y), post);
            lemma_encode_injective(x, y);
        },
        (Some(x), None) => {
            assert(rendered_prev(p)[1] == 111u8);
            assert(rendered_prev(p)[0] != rendered_prev(q)[0]);
        },
        (None, Some(y)) => {
            assert(rendered_prev(p)[0] != rendered_prev(q)[0]);
        },
        (None, None) => {},
    }
}

/// ASCII decimal digits of a natural number.
pub open spec fn decimal(n: nat) -> Seq<u8>
    decreases n,
{
    if n < 10 {
        seq![(n + 48) as u8]
    } else {
        decimal(n / 10).push((n % 10 + 48) as u8)
    }
}

/// ASCII decimal rendering of an integer, with a leading `-` when negative.
pub open spec fn signed_decimal(i: int) -> Seq<u8> {
    if i < 0 {
        seq![45u8] + decimal((-i) as nat)
    } else {
        decimal(i as nat)
    }
}

/// One chain element, framed: the decimal byte length of its UTF-8
/// encoding, a colon, then those bytes.
pub open spec fn framed(item: Seq<char>) -> Seq<u8> {
    decimal(encode_utf8(item).len()) + seq![58u8] + encode_utf8(item)
}

/// The chain's elements, each framed, one after another.
pub open spec fn chain_bytes(items: Seq<Seq<char>>) -> Seq<u8>
    decreases items.len(),
{
    if items.len() == 0 {
        seq![]
    } else {
        framed(items[0]) + chain_bytes(items.drop_first())
    }
}

/// `None`, or `Some("h")` around the UTF-8 bytes of the predecessor fingerprint.
pub open spec fn rendered_prev(p: Option<Seq<char>>) -> Seq<u8> {
    match p {
        None => seq![78u8, 111u8, 110u8, 101u8],
        Some(h) => seq![83u8, 111u8, 109u8, 101u8, 40u8, 34u8] + encode_utf8(h) + seq![34u8, 41u8],
    }
}

/// A lowercase hexadecimal digit.
pub open spec fn is_lower_hex(c: char) -> bool {
    ('0' <= c && c <= '9') || ('a' <= c && c <= 'f')
}

/// Lowercase hexadecimal SHA-256 digest of a byte string.
pub uninterp spec fn sha256_hex(bytes: Seq<u8>) -> Seq<char>;

/// Relies on sha2::Sha256::digest and the `LowerHex` rendering of its 32-byte
/// output: two lowercase hex digits per byte.
#[verifier::external_body]
fn sha256_lower_hex(bytes: &[u8]) -> (r: String)
    ensures
        r@ == sha256_hex(bytes@),
        r@.len() == 64,
        forall|i: int| 0 <= i < r@.len() ==> is_lower_hex(#[trigger] r@[i]),
{
    format!("{:x}", sha2::Sha256::digest(bytes))
}

fn push_bytes(out: &mut Vec<u8>, s: &str)
    ensures
        final(out)@ == old(out)@ + encode_utf8(s@),
{
    let b = s.as_bytes();
    let ghost start = out@;
    let mut i: usize = 0;
    while i < b.len()
        invariant
            i <= b@.len(),
            b@ == s.spec_bytes(),
            out@ == start + b@.subrange(0, i as int),
        decreases b@.len() - i,
    {
        out.push(b[i]);
        assert(out@ =~= start + b@.subrange(0, i + 1));
        i = i + 1;
    }
    assert(b@.subrange(0, i as int) =~= b@);
}

fn push_decimal(out: &mut Vec<u8>, n: u64)
    ensures
        final(out)@ == old(out)@ + decimal(n as nat),
    decreases n,
{
    let ghost start = out@;
    if n >= 10 {
        push_decimal(out, n / 10);
    }
    out.push((n % 10 + 48) as u8);
    assert(out@ =~= start + decimal(n as nat));
}

fn push_signed(out: &mut Vec<u8>, i: i64)
    ensures
        final(out)@ == old(out)@ + signed_decimal(i as int),
{
    let ghost start = out@;
    if i < 0 {
        out.push(45u8);
        let m: u64 = (0i128 - i as i128) as u64;
        push_decimal(out, m);
        assert(out@ =~= start + signed_decimal(i as int));
    } else {
        push_decimal(out, i as u64);
    }
}

fn push_chain(out: &mut Vec<u8>, items: &Vec<String>)
    ensures
        final(out)@ == old(out)@ + chain_bytes(items@.map_values(|s: String| s@)),
{
    let ghost start = out@;
    let ghost all = items@.map_values(|s: String| s@);
    let mut i: usize = 0;
    while i < items.len()
        invariant
            i <= items@.len(),
            all == items@.map_values(|s: String| s@),
            out@ == start + chain_bytes(all.take(i as int)),
        decreases items@.len() - i,
    {
        let ghost before = out@;
        let item = items[i].as_str();
        let n = item.as_bytes().len();
        assert(item@ == all[i as int]);
        assert(n == encode_utf8(all[i as int]).len());
        push_decimal(out, n as u64);
        out.push(58u8);
        push_bytes(out, item);
        assert(out@ =~= before + framed(all[i as int]));
        proof {
            assert(all.take(i + 1) =~= all.take(i as int).push(all[i as int]));
            lemma_chain_push(all.take(i as int), all[i as int]);
        }
        assert(out@ =~= start + chain_bytes(all.take(i + 1)));
        i = i + 1;
    }
    assert(all.take(i as int) =~= all);
}

fn copy_strings(v: &Vec<String>) -> (r: Vec<String>)
    ensures
        r@.map_values(|s: String| s@) == v@.map_values(|s: String| s@),
{
    let mut r: Vec<String> = Vec::new();
    let mut i: usize = 0;
    while i < v.len()
        invariant
            i <= v@.len(),
            r@.map_values(|s: String| s@) == v@.take(i as int).map_values(|s: String| s@),
        decreases v@.len() - i,
    {
        r.push(v[i].clone());
        assert(v@.take(i + 1).map_values(|s: String| s@) =~= v@.take(i as int).map_values(
            |s: String| s@,
        ).push(v@[i as int]@));
        assert(r@.map_values(|s: String| s@) =~= v@.take(i + 1).map_values(|s: String| s@));
        i = i + 1;
    }
    assert(v@.take(i as int) =~= v@);
    r
}

fn copy_opt_string(o: &Option<String>) -> (r: Option<String>)
    ensures
        opt_view(r) == opt_view(*o),
{
    match o {
        Some(s) => Some(s.clone()),
        None => None,
    }
}

fn same_strings(a: &Vec<String>, b: &Vec<String>) -> (r: bool)
    ensures
        r == (a@.map_values(|s: String| s@) == b@.map_values(|s: String| s@)),
{
    if a.len() != b.len() {
        assert(a@.map_values(|s: String| s@).len() != b@.map_values(|s: String| s@).len());
        return false;
    }
    let mut i: usize = 0;
    while i < a.len()
        invariant
            i <= a@.len(),
            a@.len() == b@.len(),
            forall|j: int| 0 <= j < i ==> a@[j]@ == b@[j]@,
        decreases a@.len() - i,
    {
        if a[i] != b[i] {
            assert(a@.map_values(|s: String| s@)[i as int] != b@.map_values(|s: String| s@)[i as int]);
            return false;
        }
        i = i + 1;
    }
    assert(a@.map_values(|s: String| s@) =~= b@.map_values(|s: String| s@));
    true
}

fn same_opt_string(a: &Option<String>, b: &Option<String>) -> (r: bool)
    ensures
        r == (opt_view(*a) == opt_view(*b)),
{
    match (a, b) {
        (Some(x), Some(y)) => *x == *y,
        (None, None) => true,
        _ => false,
    }
}

impl PartialEq for AuthorityUnit {
    fn eq(&self, other: &AuthorityUnit) -> (r: bool) {
        self.same_as(other)
    }
}

impl vstd::std_specs::cmp::PartialEqSpecImpl for AuthorityUnit {
    open spec fn obeys_eq_spec() -> bool {
        true
    }

    open spec fn eq_spec(&self, other: &AuthorityUnit) -> bool {
        self@ == other@
    }
}

impl Clone for AuthorityUnit {
    fn clone(&self) -> (r: Self)
        ensures
            r@ == self@,
    {
        AuthorityUnit {
            id: self.id.clone(),
            scope: self.scope.clone(),
            delegation_chain: copy_strings(&self.delegation_chain),
            price: self.price,
            timestamp: self.timestamp,
            prev_hash: copy_opt_string(&self.prev_hash),
        }
    }
}

impl AuthorityUnit {
    /// Field-by-field equality: every field, chain and predecessor included.
    pub fn same_as(&self, other: &AuthorityUnit) -> (r: bool)
        ensures
            r == (self@ == other@),
    {
        self.id == other.id && self.scope == other.scope && same_strings(
            &self.delegation_chain,
            &other.delegation_chain,
        ) && self.price == other.price && self.timestamp == other.timestamp && same_opt_string(
            &self.prev_hash,
            &other.prev_hash,
        )
    }

    /// Builds a unit, checking the price, then the scope, then the chain.
    pub fn new(
        id: String,
        scope: String,
        delegation_chain: Vec<String>,
        price: i64,
        timestamp: i64,
        prev_hash: Option<String>,
    ) -> (r: Result<Self, AuthorityError>)
        ensures
            price < 0 ==> r == Err::<Self, AuthorityError>(AuthorityError::NegativePrice(price)),
            price >= 0 && scope@.len() == 0 ==> r is Err && r->Err_0 is EmptyScope,
            price >= 0 && scope@.len() > 0 && delegation_chain@.len() == 0 ==> r is Err
                && r->Err_0 is EmptyDelegationChain,
            price >= 0 && scope@.len() > 0 && delegation_chain@.len() > 0 ==> r is Ok
                && r->Ok_0.id == id && r->Ok_0.scope == scope && r->Ok_0.delegation_chain
                == delegation_chain && r->Ok_0.price == price && r->Ok_0.timestamp == timestamp
                && r->Ok_0.prev_hash == prev_hash,
            r is Ok ==> r->Ok_0@.wf(),
    {
        if price < 0 {
            return Err(AuthorityError::NegativePrice(price));
        }
        if scope.as_str().is_empty() {
            return Err(AuthorityError::EmptyScope);
        }
        if delegation_chain.is_empty() {
            return Err(AuthorityError::EmptyDelegationChain);
        }
        Ok(AuthorityUnit { id, scope, delegation_chain, price, timestamp, prev_hash })
    }

    /// The canonical byte string of the unit's fields.
    pub fn canonical_bytes(&self) -> (r: Vec<u8>)
        ensures
            r@ == self@.canonical_bytes(),
    {
        let mut out: Vec<u8> = Vec::new();
        push_bytes(&mut out, self.id.as_str());
        out.push(124u8);
        push_bytes(&mut out, self.scope.as_str());
        out.push(124u8);
        push_chain(&mut out, &self.delegation_chain);
        out.push(124u8);
        push_signed(&mut out, self.price);
        out.push(124u8);
        push_signed(&mut out, self.timestamp);
        out.push(124u8);
        match &self.prev_hash {
            None => {
                out.push(78u8);
                out.push(111u8);
                out.push(110u8);
                out.push(101u8);
            },
            Some(h) => {
                out.push(83u8);
                out.push(111u8);
                out.push(109u8);
                out.push(101u8);
                out.push(40u8);
                out.push(34u8);
                push_bytes(&mut out, h.as_str());
                out.push(34u8);
                out.push(41u8);
            },
        }
        assert(out@ =~= self@.canonical_bytes());
        out
    }

    /// The unit's fingerprint: the SHA-256 digest of its canonical bytes, in
    /// lowercase hex.
    pub fn hash(&self) -> (r: String)
        ensures
            r@ == sha256_hex(self@.canonical_bytes()),
            r@.len() == 64,
            forall|i: int| 0 <= i < r@.len() ==> is_lower_hex(#[trigger] r@[i]),
    {
        let bytes = self.canonical_bytes();
        sha256_lower_hex(bytes.as_slice())
    }

    /// Whether the unit is still within `max_age_seconds` of its timestamp at
    /// `current_time`.
    pub fn is_valid(&self, current_time: i64, max_age_seconds: i64) -> (r: bool)
        ensures
            r == self@.valid_at(current_time as int, max_age_seconds as int),
    {
        (current_time as i128) - (self.timestamp as i128) <= max_age_seconds as i128
    }

    /// Whether the unit authorizes an action of scope `action_scope`: the
    /// scopes are equal, or the unit's scope is the wildcard `any`.
    pub fn can_consume(&self, action_scope: &str) -> (r: bool)
        ensures
            r == self@.consumes(action_scope@),
    {
        let wildcard = "any".to_owned();
        proof {
            reveal_strlit("any");
        }
        assert(wildcard@ =~= wildcard_scope());
        self.scope == action_scope.to_owned() || self.scope == wildcard
    }
}

} // verus!
