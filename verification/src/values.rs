//! The value library: static data (strings, integers, floats, links) is interned here,
//! content-addressed and deduplicated, and referred to by id. Storage sits behind a backend;
//! the vault backend keeps values encrypted at rest and decrypts them transparently.

use vstd::prelude::*;
use vstd::utf8::encode_utf8;
use crate::digest::{hex_digest, hex_sha256, push_utf8};
use crate::strmap::StrMap;
use crate::text::{push_char, string_from};

verus! {

#[derive(Debug, Clone, Copy, PartialEq, Eq, Structural)]
pub enum ValueKind {
    Str,
    Int,
    Float,
    Bool,
    Link,
    Nil,
}

/// The lowercase name of a kind.
pub open spec fn kind_name(k: ValueKind) -> Seq<char> {
    match k {
        ValueKind::Str => seq!['s', 't', 'r'],
        ValueKind::Int => seq!['i', 'n', 't'],
        ValueKind::Float => seq!['f', 'l', 'o', 'a', 't'],
        ValueKind::Bool => seq!['b', 'o', 'o', 'l'],
        ValueKind::Link => seq!['l', 'i', 'n', 'k'],
        ValueKind::Nil => seq!['n', 'i', 'l'],
    }
}

impl ValueKind {
    pub fn as_str(&self) -> (s: &'static str)
        ensures
            s@ == kind_name(*self),
    {
        match self {
            ValueKind::Str => {
                proof {
                    reveal_strlit("str");
                }
                "str"
            },
            ValueKind::Int => {
                proof {
                    reveal_strlit("int");
                }
                "int"
            },
            ValueKind::Float => {
                proof {
                    reveal_strlit("float");
                }
                "float"
            },
            ValueKind::Bool => {
                proof {
                    reveal_strlit("bool");
                }
                "bool"
            },
            ValueKind::Link => {
                proof {
                    reveal_strlit("link");
                }
                "link"
            },
            ValueKind::Nil => {
                proof {
                    reveal_strlit("nil");
                }
                "nil"
            },
        }
    }
}

#[derive(Debug, Clone)]
pub struct ValueRef {
    pub id: String,
    pub kind: ValueKind,
}

/// The bytes hashed for a value: the kind's name, a colon, then the raw text (all UTF-8).
pub open spec fn addr_bytes(k: ValueKind, raw: Seq<char>) -> Seq<u8> {
    encode_utf8(kind_name(k)) + seq![58u8] + encode_utf8(raw)
}

/// The content address of a value: `<kind>:<first 16 hex digits of the digest>`.
pub open spec fn value_addr(k: ValueKind, raw: Seq<char>) -> Seq<char> {
    kind_name(k) + seq![':'] + hex_digest(addr_bytes(k, raw)).take(16)
}

/// The id-to-kind index after interning `(k, raw)`: a new id is recorded, a known one is kept.
pub open spec fn interned_kinds(kinds: Map<Seq<char>, ValueKind>, k: ValueKind, raw: Seq<char>) -> Map<
    Seq<char>,
    ValueKind,
> {
    let id = value_addr(k, raw);
    if kinds.dom().contains(id) {
        kinds
    } else {
        kinds.insert(id, k)
    }
}

/// The stored values after interning `(k, raw)`: the raw text is put only under a new id.
pub open spec fn interned_store(
    kinds: Map<Seq<char>, ValueKind>,
    stored: Map<Seq<char>, Seq<char>>,
    k: ValueKind,
    raw: Seq<char>,
) -> Map<Seq<char>, Seq<char>> {
    let id = value_addr(k, raw);
    if kinds.dom().contains(id) {
        stored
    } else {
        stored.insert(id, raw)
    }
}

/// Storage for interned values. The default keeps plaintext in memory; a vault backend
/// encrypts at rest. `contents` is the text written under each stored id, and `gives` says
/// what a `get` of an id may hand back.
pub trait ValueBackend {
    spec fn inv(&self) -> bool;

    spec fn contents(&self) -> Map<Seq<char>, Seq<char>>;

    spec fn gives(&self, id: Seq<char>, s: Seq<char>) -> bool;

    fn put(&mut self, id: &str, kind: &ValueKind, raw: &str)
        requires
            old(self).inv(),
        ensures
            final(self).inv(),
            final(self).contents() == old(self).contents().insert(id@, raw@),
    ;

    fn get(&self, id: &str) -> (r: Option<String>)
        requires
            self.inv(),
        ensures
            match r {
                Some(s) => self.contents().dom().contains(id@) && self.gives(id@, s@),
                None => !self.contents().dom().contains(id@),
            },
    ;
}

/// Plain in-memory backend.
pub struct MemoryBackend {
    store: StrMap<String>,
}

impl MemoryBackend {
    pub closed spec fn stored(&self) -> Map<Seq<char>, Seq<char>> {
        self.store.map().map_values(|s: String| s@)
    }
}

impl Default for MemoryBackend {
    fn default() -> (b: Self)
        ensures
            b.stored() == Map::<Seq<char>, Seq<char>>::empty(),
    {
        let b = MemoryBackend { store: StrMap::new() };
        assert(b.stored() =~= Map::<Seq<char>, Seq<char>>::empty());
        b
    }
}

impl ValueBackend for MemoryBackend {
    open spec fn inv(&self) -> bool {
        true
    }

    open spec fn contents(&self) -> Map<Seq<char>, Seq<char>> {
        self.stored()
    }

    /// A read gives back exactly the text written.
    open spec fn gives(&self, id: Seq<char>, s: Seq<char>) -> bool {
        self.stored().dom().contains(id) && self.stored()[id] == s
    }

    fn put(&mut self, id: &str, kind: &ValueKind, raw: &str) {
        let ghost old_map = self.store.map();
        self.store.insert(string_from(id), string_from(raw));
        assert(self.stored() =~= old(self).stored().insert(id@, raw@));
    }

    fn get(&self, id: &str) -> (r: Option<String>) {
        match self.store.get(id) {
            Some(s) => Some(s.clone()),
            None => None,
        }
    }
}

/// Every way of calling `dec` on bytes `c` gives back the text `p`.
pub open spec fn decrypts_to<D: Fn(&[u8]) -> String>(dec: D, c: Seq<u8>, p: Seq<char>) -> bool {
    forall|cs: &[u8], r: String| cs@ == c && #[trigger] call_ensures(dec, (cs,), r) ==> r@ == p
}

/// The bytes `c` are what a call of `enc` on the text `p` handed back.
pub open spec fn encrypts_to<E: Fn(&str) -> Vec<u8>>(enc: E, p: Seq<char>, c: Seq<u8>) -> bool {
    exists|s: &str, v: Vec<u8>| s@ == p && v@ == c && #[trigger] call_ensures(enc, (s,), v)
}

/// Some call of `dec` on the bytes `c` hands back the text `p`.
pub open spec fn may_decrypt_to<D: Fn(&[u8]) -> String>(dec: D, c: Seq<u8>, p: Seq<char>) -> bool {
    exists|cs: &[u8], r: String| cs@ == c && r@ == p && #[trigger] call_ensures(dec, (cs,), r)
}

/// Both halves of a cipher can be called on any input.
pub open spec fn cipher_callable<E: Fn(&str) -> Vec<u8>, D: Fn(&[u8]) -> String>(
    enc: E,
    dec: D,
) -> bool {
    &&& forall|s: &str| #[trigger] call_requires(enc, (s,))
    &&& forall|cs: &[u8]| #[trigger] call_requires(dec, (cs,))
}

/// Decryption undoes encryption: whatever `enc` makes of a text, `dec` turns back into it.
pub open spec fn cipher_roundtrips<E: Fn(&str) -> Vec<u8>, D: Fn(&[u8]) -> String>(
    enc: E,
    dec: D,
) -> bool {
    forall|s: &str, c: Vec<u8>| #[trigger] call_ensures(enc, (s,), c) ==> decrypts_to(dec, c@, s@)
}

/// Vault backend: values are stored as the output of `encrypt` and decrypted on `get`.
/// The cipher is supplied by the caller and must wrap an audited library.
pub struct VaultBackend<E, D> {
    store: StrMap<Vec<u8>>,
    encrypt: E,
    decrypt: D,
    plain: Ghost<Map<Seq<char>, Seq<char>>>,
}

impl<E: Fn(&str) -> Vec<u8>, D: Fn(&[u8]) -> String> VaultBackend<E, D> {
    /// The text written under each stored id.
    pub closed spec fn plaintexts(&self) -> Map<Seq<char>, Seq<char>> {
        self.plain@
    }

    /// The cipher's encrypting half.
    pub closed spec fn encryptor(&self) -> E {
        self.encrypt
    }

    /// The cipher's decrypting half.
    pub closed spec fn decryptor(&self) -> D {
        self.decrypt
    }

    /// The bytes stored under `id` are what a `get` of it decrypts.
    pub closed spec fn stored_bytes(&self, id: Seq<char>) -> Seq<u8> {
        self.store.map()[id]@
    }

    pub closed spec fn well_formed(&self) -> bool {
        &&& cipher_callable(self.encrypt, self.decrypt)
        &&& self.store.map().dom() == self.plain@.dom()
        &&& forall|id: Seq<char>| #[trigger]
            self.store.map().dom().contains(id) ==> encrypts_to(
                self.encrypt,
                self.plain@[id],
                self.store.map()[id]@,
            )
    }

    pub fn new(encrypt: E, decrypt: D) -> (v: Self)
        requires
            cipher_callable(encrypt, decrypt),
        ensures
            v.well_formed(),
            v.plaintexts() == Map::<Seq<char>, Seq<char>>::empty(),
            v.encryptor() == encrypt,
            v.decryptor() == decrypt,
    {
        let v = VaultBackend {
            store: StrMap::new(),
            encrypt,
            decrypt,
            plain: Ghost(Map::empty()),
        };
        assert(v.store.map().dom() =~= v.plain@.dom());
        v
    }

    /// What is stored under a written id is the encryption of the text written, and a read
    /// of it hands back what the decryption makes of those bytes.
    pub proof fn law_stored_encrypted(&self, id: Seq<char>, s: Seq<char>)
        requires
            self.well_formed(),
            self.plaintexts().dom().contains(id),
        ensures
            encrypts_to(self.encryptor(), self.plaintexts()[id], self.stored_bytes(id)),
            self.gives(id, s) == may_decrypt_to(self.decryptor(), self.stored_bytes(id), s),
    {
    }

    /// When the cipher's decryption undoes its encryption, every read gives back the text
    /// written under that id.
    pub proof fn law_read_gives_written(&self, id: Seq<char>, s: Seq<char>)
        requires
            self.well_formed(),
            cipher_roundtrips(self.encryptor(), self.decryptor()),
            self.gives(id, s),
        ensures
            self.plaintexts().dom().contains(id),
            s == self.plaintexts()[id],
    {
        let c = self.store.map()[id]@;
        assert(self.store.map().dom().contains(id));
        let (p, v) = choose|p: &str, v: Vec<u8>|
            p@ == self.plain@[id] && v@ == c && #[trigger] call_ensures(self.encrypt, (p,), v);
        assert(decrypts_to(self.decrypt, v@, p@));
        let (cs, r) = choose|cs: &[u8], r: String|
            cs@ == c && r@ == s && #[trigger] call_ensures(self.decrypt, (cs,), r);
        assert(r@ == p@);
    }
}

impl<E: Fn(&str) -> Vec<u8>, D: Fn(&[u8]) -> String> ValueBackend for VaultBackend<E, D> {
    open spec fn inv(&self) -> bool {
        self.well_formed()
    }

    open spec fn contents(&self) -> Map<Seq<char>, Seq<char>> {
        self.plaintexts()
    }

    /// A read may give back whatever the decryption makes of the stored bytes.
    closed spec fn gives(&self, id: Seq<char>, s: Seq<char>) -> bool {
        self.store.map().dom().contains(id) && may_decrypt_to(self.decrypt, self.store.map()[id]@, s)
    }

    fn put(&mut self, id: &str, kind: &ValueKind, raw: &str)
        ensures
            final(self).encryptor() == old(self).encryptor(),
            final(self).decryptor() == old(self).decryptor(),
    {
        let c = (self.encrypt)(raw);
        let ghost cv = c@;
        self.store.insert(string_from(id), c);
        let ghost p = self.plain@.insert(id@, raw@);
        self.plain = Ghost(p);
        assert(self.store.map().dom() =~= self.plain@.dom());
        assert forall|x: Seq<char>| #[trigger]
            self.store.map().dom().contains(x) implies encrypts_to(
                self.encrypt,
                self.plain@[x],
                self.store.map()[x]@,
            ) by {
            if x == id@ {
                assert(self.store.map()[x]@ == cv);
            }
        }
    }

    fn get(&self, id: &str) -> (r: Option<String>) {
        match self.store.get(id) {
            Some(c) => {
                let cs = c.as_slice();
                let s = (self.decrypt)(cs);
                assert(may_decrypt_to(self.decrypt, self.store.map()[id@]@, s@));
                Some(s)
            },
            None => None,
        }
    }
}

/// The value library: interns values into a backend, deduplicating by content address.
pub struct ValueLibrary<B> {
    backend: B,
    index: StrMap<ValueKind>,
}

impl<B: ValueBackend> ValueLibrary<B> {
    /// The kind recorded for each interned id.
    pub closed spec fn kinds(&self) -> Map<Seq<char>, ValueKind> {
        self.index.map()
    }

    /// What the backend gives back for each stored id.
    /// The backend the library writes to.
    pub closed spec fn backend_view(&self) -> B {
        self.backend
    }

    pub open spec fn stored(&self) -> Map<Seq<char>, Seq<char>> {
        self.backend_view().contents()
    }

    pub open spec fn well_formed(&self) -> bool {
        self.backend_view().inv()
    }

    pub fn new(backend: B) -> (lib: Self)
        requires
            backend.inv(),
        ensures
            lib.well_formed(),
            lib.kinds() == Map::<Seq<char>, ValueKind>::empty(),
            lib.stored() == backend.contents(),
            lib.backend_view() == backend,
    {
        ValueLibrary { backend, index: StrMap::new() }
    }

    fn addr(kind: &ValueKind, raw: &str) -> (id: String)
        ensures
            id@ == value_addr(*kind, raw@),
    {
        let name = kind.as_str();
        let mut bytes: Vec<u8> = Vec::new();
        push_utf8(&mut bytes, name);
        bytes.push(58u8);
        push_utf8(&mut bytes, raw);
        assert(bytes@ =~= addr_bytes(*kind, raw@));
        let digest = hex_sha256(bytes.as_slice());
        let mut id = string_from(name);
        push_char(&mut id, ':');
        let dc = crate::text::chars_of(digest.as_str());
        let mut i: usize = 0;
        while i < 16
            invariant
                i <= 16,
                dc@ == hex_digest(addr_bytes(*kind, raw@)),
                dc@.len() == 64,
                id@ == kind_name(*kind) + seq![':'] + dc@.take(i as int),
            decreases 16 - i,
        {
            assert(dc@.take(i + 1) =~= dc@.take(i as int).push(dc@[i as int]));
            push_char(&mut id, dc[i]);
            i = i + 1;
        }
        id
    }

    /// Interns a value; an identical (kind, raw) gives the same id, and is stored only once.
    pub fn intern(&mut self, kind: ValueKind, raw: &str) -> (r: ValueRef)
        requires
            old(self).well_formed(),
        ensures
            final(self).well_formed(),
            r.id@ == value_addr(kind, raw@),
            r.kind == kind,
            final(self).kinds() == interned_kinds(old(self).kinds(), kind, raw@),
            final(self).stored() == interned_store(old(self).kinds(), old(self).stored(), kind, raw@),
    {
        let id = Self::addr(&kind, raw);
        if !self.index.contains_key(id.as_str()) {
            self.backend.put(id.as_str(), &kind, raw);
            self.index.insert(id.clone(), kind);
        }
        ValueRef { id, kind }
    }

    pub fn resolve(&self, id: &str) -> (r: Option<String>)
        requires
            self.well_formed(),
        ensures
            match r {
                Some(s) => self.stored().dom().contains(id@) && self.backend_view().gives(id@, s@),
                None => !self.stored().dom().contains(id@),
            },
    {
        self.backend.get(id)
    }

    pub fn len(&self) -> (n: usize)
        ensures
            n == self.kinds().dom().len(),
    {
        self.index.len()
    }

    pub fn is_empty(&self) -> (b: bool)
        ensures
            b == (self.kinds().dom().len() == 0),
    {
        self.index.len() == 0
    }
}

/// A kind's name holds no colon.
proof fn lemma_kind_name_colon_free(k: ValueKind)
    ensures
        forall|i: int| 0 <= i < kind_name(k).len() ==> kind_name(k)[i] != ':',
{
}

/// Values of different kinds never share an id, whatever their text: the id starts with the
/// kind's name followed by a colon.
pub proof fn law_kind_separates_ids(k1: ValueKind, raw1: Seq<char>, k2: ValueKind, raw2: Seq<char>)
    requires
        k1 != k2,
    ensures
        value_addr(k1, raw1) != value_addr(k2, raw2),
{
    let a = value_addr(k1, raw1);
    let b = value_addr(k2, raw2);
    let n1 = kind_name(k1);
    let n2 = kind_name(k2);
    lemma_kind_name_colon_free(k1);
    lemma_kind_name_colon_free(k2);
    if a == b {
        assert(a[n1.len() as int] == ':');
        assert(b[n2.len() as int] == ':');
        if n1.len() < n2.len() {
            assert(b[n1.len() as int] == n2[n1.len() as int]);
        } else if n2.len() < n1.len() {
            assert(a[n2.len() as int] == n1[n2.len() as int]);
        } else {
            assert(n1 =~= a.take(n1.len() as int));
            assert(n2 =~= b.take(n2.len() as int));
            assert(n1 == n2);
            match k1 {
                ValueKind::Str => assert(n1[0] == 's'),
                ValueKind::Int => assert(n1[0] == 'i'),
                ValueKind::Float => assert(n1[0] == 'f'),
                ValueKind::Bool => assert(n1[0] == 'b'),
                ValueKind::Link => assert(n1[1] == 'i'),
                ValueKind::Nil => assert(n1[0] == 'n'),
            }
            match k2 {
                ValueKind::Str => assert(n2[0] == 's'),
                ValueKind::Int => assert(n2[0] == 'i'),
                ValueKind::Float => assert(n2[0] == 'f'),
                ValueKind::Bool => assert(n2[0] == 'b'),
                ValueKind::Link => assert(n2[1] == 'i'),
                ValueKind::Nil => assert(n2[0] == 'n'),
            }
        }
    }
}

/// Interning is idempotent: interning the same `(kind, raw)` a second time changes nothing,
/// so each distinct value is stored exactly once.
pub proof fn law_intern_idempotent(
    kinds: Map<Seq<char>, ValueKind>,
    stored: Map<Seq<char>, Seq<char>>,
    k: ValueKind,
    raw: Seq<char>,
)
    ensures
        interned_kinds(interned_kinds(kinds, k, raw), k, raw) == interned_kinds(kinds, k, raw),
        interned_store(interned_kinds(kinds, k, raw), interned_store(kinds, stored, k, raw), k, raw)
            == interned_store(kinds, stored, k, raw),
{
}

/// A newly interned value resolves back to its text, and the count of distinct values grows
/// by one; interning a known id leaves the count unchanged.
pub proof fn law_intern_then_resolve(
    kinds: Map<Seq<char>, ValueKind>,
    stored: Map<Seq<char>, Seq<char>>,
    k: ValueKind,
    raw: Seq<char>,
)
    requires
        kinds.dom().finite(),
    ensures
        !kinds.dom().contains(value_addr(k, raw)) ==> {
            &&& interned_store(kinds, stored, k, raw).dom().contains(value_addr(k, raw))
            &&& interned_store(kinds, stored, k, raw)[value_addr(k, raw)] == raw
            &&& interned_kinds(kinds, k, raw).dom().len() == kinds.dom().len() + 1
        },
        kinds.dom().contains(value_addr(k, raw)) ==> interned_kinds(kinds, k, raw).dom().len()
            == kinds.dom().len(),
{
}

/// Interning keeps what earlier interns stored: every id already stored keeps its text, the
/// ids stored stay among the ids interned, and an id neither interned before nor just now
/// stays unstored (so it resolves to nothing).
pub proof fn law_intern_keeps_stored(
    kinds: Map<Seq<char>, ValueKind>,
    stored: Map<Seq<char>, Seq<char>>,
    k: ValueKind,
    raw: Seq<char>,
    x: Seq<char>,
)
    requires
        stored.dom().subset_of(kinds.dom()),
    ensures
        stored.dom().contains(x) ==> interned_store(kinds, stored, k, raw).dom().contains(x)
            && interned_store(kinds, stored, k, raw)[x] == stored[x],
        interned_store(kinds, stored, k, raw).dom().subset_of(interned_kinds(kinds, k, raw).dom()),
        !kinds.dom().contains(x) && x != value_addr(k, raw) ==> !interned_store(
            kinds,
            stored,
            k,
            raw,
        ).dom().contains(x),
{
}

/// With the in-memory backend, what a resolve gives back is exactly the text interned.
pub proof fn law_memory_reads_exact(lib: ValueLibrary<MemoryBackend>, id: Seq<char>, s: Seq<char>)
    requires
        lib.backend_view().gives(id, s),
    ensures
        lib.stored().dom().contains(id),
        lib.stored()[id] == s,
{
}

/// With a vault backend whose decryption undoes its encryption, what a resolve gives back is
/// the text interned under that id.
pub proof fn law_vault_reads_written<E: Fn(&str) -> Vec<u8>, D: Fn(&[u8]) -> String>(
    lib: ValueLibrary<VaultBackend<E, D>>,
    id: Seq<char>,
    s: Seq<char>,
)
    requires
        lib.well_formed(),
        cipher_roundtrips(lib.backend_view().encryptor(), lib.backend_view().decryptor()),
        lib.backend_view().gives(id, s),
    ensures
        lib.stored().dom().contains(id),
        lib.stored()[id] == s,
{
    lib.backend_view().law_read_gives_written(id, s);
}

impl Default for ValueLibrary<MemoryBackend> {
    fn default() -> (lib: Self)
        ensures
            lib.well_formed(),
            lib.kinds() == Map::<Seq<char>, ValueKind>::empty(),
            lib.stored() == Map::<Seq<char>, Seq<char>>::empty(),
    {
        ValueLibrary::new(MemoryBackend::default())
    }
}

} // verus!
