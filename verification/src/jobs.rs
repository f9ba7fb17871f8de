//! Provider-neutral index jobs and the registry of vector spaces.
use vstd::prelude::*;

use crate::crypto::{hex, sha256, sha256_of};
use crate::errors::{invalid, memory, MCSError, Result};
use crate::ids::{parse_uuid, uuid_of};
use crate::mutation::{is_plain_label, plain_label};
use crate::text::{decimal, decimal_of, same};
use vstd::utf8::encode_utf8;

verus! {

#[derive(Clone, Copy, Debug, PartialEq, Eq, Structural)]
pub enum Normalization {
    /// Vectors are stored as they come; written `None`.
    Plain,
    L2,
}

#[derive(Clone, Copy, Debug, PartialEq, Eq, Structural)]
pub enum DistanceMetric {
    Cosine,
    InnerProduct,
    L2Squared,
}

#[derive(Debug, PartialEq, Eq)]
pub struct IndexProfile {
    pub id: u128,
    pub store_key: String,
    pub provider_kind: String,
    pub model: String,
    pub dimensions: u32,
    pub representation_version: String,
    pub normalization: Normalization,
    pub distance_metric: DistanceMetric,
    pub vector_encoding_version: String,
}

/// What `serde_json` writes for a text.
pub uninterp spec fn json_string(s: Seq<char>) -> Seq<char>;

/// `serde_json::to_string` of a text: the JSON string that stands for it.
#[verifier::external_body]
pub(crate) fn quote_json(s: &str) -> (r: String)
    ensures
        r@ == json_string(s@),
{
    serde_json::to_string(s).unwrap_or_default()
}

/// The name of a normalization.
pub open spec fn normalization_name(n: Normalization) -> Seq<char> {
    match n {
        Normalization::Plain => "\"None\""@,
        Normalization::L2 => "\"L2\""@,
    }
}

/// The name of a metric.
pub open spec fn metric_name(m: DistanceMetric) -> Seq<char> {
    match m {
        DistanceMetric::Cosine => "\"Cosine\""@,
        DistanceMetric::InnerProduct => "\"InnerProduct\""@,
        DistanceMetric::L2Squared => "\"L2Squared\""@,
    }
}

impl IndexProfile {
    /// The profile is one that vectors may be built for.
    pub open spec fn valid(self) -> bool {
        &&& self.id != 0
        &&& self.store_key@ == "default"@
        &&& 0 < self.dimensions <= 65_536
        &&& self.vector_encoding_version@ == "f32le-v1"@
        &&& plain_label(self.provider_kind@)
        &&& plain_label(self.model@)
        &&& plain_label(self.representation_version@)
    }

    /// Accepts the profile, or refuses it.
    pub fn validate(&self) -> (r: Result<()>)
        ensures
            r is Ok <==> self.valid(),
            r matches Err(e) ==> (e matches MCSError::InvalidParams(m) && m@
                == "invalid index profile"@),
    {
        if self.id == 0 || !same(&self.store_key, "default") || self.dimensions == 0
            || self.dimensions > 65_536 || !same(&self.vector_encoding_version, "f32le-v1")
            || !is_plain_label(&self.provider_kind) || !is_plain_label(&self.model)
            || !is_plain_label(&self.representation_version) {
            return Err(invalid("invalid index profile"));
        }
        Ok(())
    }

    /// The profile as JSON with its keys in order and without its identifier.
    pub open spec fn canonical(self) -> Seq<char> {
        "{\"dimensions\":"@ + decimal(self.dimensions as nat) + ",\"distance_metric\":"@ + metric_name(
            self.distance_metric,
        ) + ",\"model\":"@ + json_string(self.model@) + ",\"normalization\":"@ + normalization_name(
            self.normalization,
        ) + ",\"provider_kind\":"@ + json_string(self.provider_kind@)
            + ",\"representation_version\":"@ + json_string(self.representation_version@)
            + ",\"store_key\":"@ + json_string(self.store_key@) + ",\"vector_encoding_version\":"@
            + json_string(self.vector_encoding_version@) + "}"@
    }

    /// The digest of what the profile says, apart from its identifier.
    pub open spec fn print(self) -> Seq<char> {
        hex(sha256_of(encode_utf8(self.canonical())))
    }

    /// The digest of what the profile says, apart from its identifier.
    pub fn fingerprint(&self) -> (r: Result<String>)
        ensures
            match r {
                Ok(f) => self.valid() && f@ == self.print(),
                Err(e) => !self.valid() && (e matches MCSError::InvalidParams(m) && m@
                    == "invalid index profile"@),
            },
    {
        match self.validate() {
            Ok(_) => {},
            Err(e) => {
                return Err(e);
            },
        }
        let metric: &str = match self.distance_metric {
            DistanceMetric::Cosine => "\"Cosine\"",
            DistanceMetric::InnerProduct => "\"InnerProduct\"",
            DistanceMetric::L2Squared => "\"L2Squared\"",
        };
        let normalization: &str = match self.normalization {
            Normalization::Plain => "\"None\"",
            Normalization::L2 => "\"L2\"",
        };
        let text: String = "{\"dimensions\":".to_owned().concat(
            &decimal_of(self.dimensions as u64),
        ).concat(",\"distance_metric\":").concat(metric).concat(",\"model\":").concat(
            &quote_json(&self.model),
        ).concat(",\"normalization\":").concat(normalization).concat(",\"provider_kind\":").concat(
            &quote_json(&self.provider_kind),
        ).concat(",\"representation_version\":").concat(
            &quote_json(&self.representation_version),
        ).concat(",\"store_key\":").concat(&quote_json(&self.store_key)).concat(
            ",\"vector_encoding_version\":",
        ).concat(&quote_json(&self.vector_encoding_version)).concat("}");
        Ok(sha256(text.as_str().as_bytes()))
    }

    /// The vector has the right number of components and all are finite.
    pub open spec fn fits(self, vector: Seq<u32>) -> bool {
        &&& vector.len() == self.dimensions
        &&& forall|i: int| 0 <= i < vector.len() ==> finite(#[trigger] vector[i])
    }

    /// Checks a vector, given by the bits of its components. `unit` tells
    /// whether its length is one, within the tolerance.
    pub fn validate_vector(&self, vector: &Vec<u32>, unit: bool) -> (r: Result<()>)
        ensures
            r is Ok <==> self.fits(vector@) && (self.normalization == Normalization::L2 ==> unit),
            !self.fits(vector@) ==> (r matches Err(MCSError::InvalidParams(m)) && m@
                == "vector dimensions or finite-value validation failed"@),
            self.fits(vector@) && r is Err ==> (r matches Err(MCSError::InvalidParams(m)) && m@
                == "vector is not L2 normalized"@),
    {
        let mut good: bool = vector.len() == self.dimensions as usize;
        let mut i: usize = 0;
        while i < vector.len()
            invariant
                i <= vector@.len(),
                good == (vector@.len() == self.dimensions && forall|j: int|
                    0 <= j < i ==> finite(#[trigger] vector@[j])),
            decreases vector@.len() - i,
        {
            if !is_finite(vector[i]) {
                good = false;
            }
            i += 1;
        }
        if !good {
            return Err(invalid("vector dimensions or finite-value validation failed"));
        }
        if self.normalization == Normalization::L2 && !unit {
            return Err(invalid("vector is not L2 normalized"));
        }
        Ok(())
    }
}

/// The bits of a single-precision number that is neither infinite nor no
/// number: its exponent is not all ones.
pub open spec fn finite(bits: u32) -> bool {
    (bits / 8_388_608) % 256 != 255
}

fn is_finite(bits: u32) -> (r: bool)
    ensures
        r == finite(bits),
{
    (bits / 8_388_608) % 256 != 255
}

/// The bytes of a number, the lowest first.
pub open spec fn little_endian(bits: u32) -> Seq<u8> {
    seq![
        (bits % 256) as u8,
        ((bits / 256) % 256) as u8,
        ((bits / 65_536) % 256) as u8,
        (bits / 16_777_216) as u8,
    ]
}

/// The bytes of a vector.
pub open spec fn vector_bytes(vector: Seq<u32>) -> Seq<u8>
    decreases vector.len(),
{
    if vector.len() == 0 {
        Seq::empty()
    } else {
        vector_bytes(vector.drop_last()) + little_endian(vector.last())
    }
}

pub(crate) fn encode_vector(vector: &Vec<u32>) -> (r: Vec<u8>)
    ensures
        r@ == vector_bytes(vector@),
{
    let mut out: Vec<u8> = Vec::new();
    let mut i: usize = 0;
    assert(vector@.take(0) =~= Seq::<u32>::empty());
    while i < vector.len()
        invariant
            i <= vector@.len(),
            out@ == vector_bytes(vector@.take(i as int)),
        decreases vector@.len() - i,
    {
        let ghost done = out@;
        let b: u32 = vector[i];
        assert(vector@.take(i + 1).drop_last() =~= vector@.take(i as int));
        out.push((b % 256) as u8);
        out.push(((b / 256) % 256) as u8);
        out.push(((b / 65_536) % 256) as u8);
        out.push((b / 16_777_216) as u8);
        assert(out@ =~= done + little_endian(b));
        i += 1;
    }
    assert(vector@.take(vector@.len() as int) =~= vector@);
    out
}

// ---------------------------------------------------------------------------
// The registry
// ---------------------------------------------------------------------------

/// Which vectors a store serves, and which it is building.
#[derive(Debug, PartialEq, Eq)]
pub enum StoreState {
    LegacyCompat,
    Active(u128),
    Rebuilding { serving: Option<u128>, candidate: u128 },
    Failed { serving: Option<u128>, candidate: u128, reason: String },
}

impl StoreState {
    /// The profile that is served.
    pub open spec fn serves(self) -> Option<u128> {
        match self {
            StoreState::LegacyCompat => None,
            StoreState::Active(p) => Some(p),
            StoreState::Rebuilding { serving, .. } => serving,
            StoreState::Failed { serving, .. } => serving,
        }
    }

    /// The profile is served or being built.
    pub open spec fn writable(self, profile: u128) -> bool {
        ||| self.serves() == Some(profile)
        ||| (self matches StoreState::Rebuilding { candidate, .. } && candidate == profile)
    }

    /// The profile that is served.
    pub fn serving_profile(&self) -> (r: Option<u128>)
        ensures
            r == self.serves(),
    {
        match self {
            StoreState::LegacyCompat => None,
            StoreState::Active(p) => Some(*p),
            StoreState::Rebuilding { serving, .. } => *serving,
            StoreState::Failed { serving, .. } => *serving,
        }
    }

    /// Whether the profile is served or being built.
    pub fn is_writable(&self, profile: u128) -> (r: bool)
        ensures
            r == self.writable(profile),
    {
        let served: bool = match self.serving_profile() {
            Some(p) => p == profile,
            None => false,
        };
        let built: bool = match self {
            StoreState::Rebuilding { candidate, .. } => *candidate == profile,
            _ => false,
        };
        served || built
    }

    /// Refuses a direct vector write unless no profile is managed.
    pub fn ensure_legacy_writes(&self) -> (r: Result<()>)
        ensures
            r is Ok <==> self is LegacyCompat,
            r matches Err(e) ==> (e matches MCSError::InvalidParams(m) && m@
                == "direct_vector_writes_disabled"@),
    {
        match self {
            StoreState::LegacyCompat => Ok(()),
            _ => Err(invalid("direct_vector_writes_disabled")),
        }
    }
}

/// One row of the registry, as it is stored.
#[derive(Debug)]
pub struct RegistryRow {
    pub state: String,
    pub serving: Option<String>,
    pub candidate: Option<String>,
    pub reason: Option<String>,
}

/// What an optional stored identifier stands for; nothing where it is none.
pub open spec fn stored_id(s: Option<String>) -> Option<Option<u128>> {
    match s {
        None => Some(None),
        Some(t) => match uuid_of(t@) {
            Some(id) => Some(Some(id)),
            None => None,
        },
    }
}

/// Whether the decoded state is what the row stores.
pub open spec fn decodes(row: RegistryRow, state: StoreState) -> bool {
    match (stored_id(row.serving), stored_id(row.candidate)) {
        (Some(serving), Some(candidate)) => match state {
            StoreState::LegacyCompat => row.state@ == "LegacyCompat"@ && serving is None && candidate
                is None && row.reason is None,
            StoreState::Active(p) => row.state@ == "Active"@ && serving == Some(p) && candidate is None
                && row.reason is None,
            StoreState::Rebuilding { serving: s, candidate: c } => row.state@ == "Rebuilding"@ && serving
                == s && candidate == Some(c) && row.reason is None,
            StoreState::Failed { serving: s, candidate: c, reason } => row.state@ == "Failed"@ && serving
                == s && candidate == Some(c) && (row.reason matches Some(w) && w@ == reason@),
        },
        _ => false,
    }
}

fn read_id(s: &Option<String>) -> (r: Option<Option<u128>>)
    ensures
        r == stored_id(*s),
{
    match s {
        None => Some(None),
        Some(t) => match parse_uuid(t) {
            Some(id) => Some(Some(id)),
            None => None,
        },
    }
}

/// Decodes a row of the registry.
pub fn decode_state(row: &RegistryRow) -> (r: Result<StoreState>)
    ensures
        match r {
            Ok(s) => decodes(*row, s),
            Err(e) => (forall|s: StoreState| !#[trigger] decodes(*row, s)) && (e
                matches MCSError::MemoryError(m) && m@ == (if stored_id(row.serving) is Some && stored_id(
                row.candidate,
            ) is Some {
                "invalid persisted profile registry state"@
            } else {
                "invalid persisted profile identifier"@
            })),
        },
{
    proof {
        reveal_strlit("LegacyCompat");
        reveal_strlit("Active");
        reveal_strlit("Rebuilding");
        reveal_strlit("Failed");
        assert("Active"@[0] != "Failed"@[0]);
        assert("LegacyCompat"@.len() == 12 && "Active"@.len() == 6 && "Rebuilding"@.len() == 10
            && "Failed"@.len() == 6);
    }
    match (read_id(&row.serving), read_id(&row.candidate)) {
        (Some(serving), Some(candidate)) => {
            if same(&row.state, "LegacyCompat") {
                if serving.is_none() && candidate.is_none() && row.reason.is_none() {
                    return Ok(StoreState::LegacyCompat);
                }
            } else if same(&row.state, "Active") {
                if let (Some(p), None, None) = (serving, candidate, &row.reason) {
                    return Ok(StoreState::Active(p));
                }
            } else if same(&row.state, "Rebuilding") {
                if let (Some(c), None) = (candidate, &row.reason) {
                    return Ok(StoreState::Rebuilding { serving, candidate: c });
                }
            } else if same(&row.state, "Failed") {
                if let (Some(c), Some(w)) = (candidate, &row.reason) {
                    return Ok(StoreState::Failed { serving, candidate: c, reason: w.clone() });
                }
            }
            Err(memory("invalid persisted profile registry state"))
        },
        _ => Err(memory("invalid persisted profile identifier")),
    }
}

/// The bytes of a vector give its components back: four bytes each, the lowest
/// first, in order.
pub proof fn law_vector_bytes_hold_the_components(vector: Seq<u32>, i: int)
    requires
        0 <= i < vector.len(),
    ensures
        vector_bytes(vector).len() == 4 * vector.len(),
        vector_bytes(vector)[4 * i] + 256 * vector_bytes(vector)[4 * i + 1] + 65_536 * vector_bytes(vector)[4 * i
            + 2] + 16_777_216 * vector_bytes(vector)[4 * i + 3] == vector[i],
    decreases vector.len(),
{
    let front = vector.drop_last();
    if i < front.len() {
        law_vector_bytes_hold_the_components(front, i);
    } else {
        lemma_vector_len(front);
        let b = vector.last();
        assert(b == (b % 256) + 256 * ((b / 256) % 256) + 65_536 * ((b / 65_536) % 256) + 16_777_216 * (b
            / 16_777_216)) by (bit_vector);
        assert(b / 16_777_216 < 256) by (bit_vector);
    }
}

proof fn lemma_vector_len(vector: Seq<u32>)
    ensures
        vector_bytes(vector).len() == 4 * vector.len(),
    decreases vector.len(),
{
    if vector.len() > 0 {
        lemma_vector_len(vector.drop_last());
    }
}

/// A stored state names what is served and what is being built as its row does,
/// and a row stores one state only.
pub proof fn law_a_row_names_what_is_served(row: RegistryRow, a: StoreState, b: StoreState)
    requires
        decodes(row, a),
        decodes(row, b),
    ensures
        row.serving is None ==> a.serves() is None,
        row.serving matches Some(t) ==> uuid_of(t@) is Some && a.serves() == uuid_of(t@),
        row.candidate is Some <==> a is Rebuilding || a is Failed,
        a matches StoreState::Rebuilding { candidate, .. } ==> (row.candidate matches Some(t) && uuid_of(t@) == Some(
            candidate,
        )),
        a matches StoreState::Failed { candidate, .. } ==> (row.candidate matches Some(t) && uuid_of(t@) == Some(
            candidate,
        )),
        a.serves() == b.serves(),
        a is LegacyCompat <==> b is LegacyCompat,
        a is Rebuilding <==> b is Rebuilding,
        a is Failed <==> b is Failed,
{
    reveal_strlit("LegacyCompat");
    reveal_strlit("Active");
    reveal_strlit("Rebuilding");
    reveal_strlit("Failed");
    assert("Active"@[0] != "Failed"@[0]);
    assert("LegacyCompat"@.len() == 12 && "Active"@.len() == 6 && "Rebuilding"@.len() == 10 && "Failed"@.len()
        == 6);
}

/// Whatever a profile says, apart from its identifier, stands in the text that
/// its fingerprint is taken of.
pub proof fn law_a_fingerprint_covers_what_a_profile_says(p: IndexProfile)
    ensures
        stands_in(json_string(p.model@), p.canonical()),
        stands_in(json_string(p.provider_kind@), p.canonical()),
        stands_in(json_string(p.representation_version@), p.canonical()),
        stands_in(json_string(p.store_key@), p.canonical()),
        stands_in(json_string(p.vector_encoding_version@), p.canonical()),
        stands_in(decimal(p.dimensions as nat), p.canonical()),
        stands_in(metric_name(p.distance_metric), p.canonical()),
        stands_in(normalization_name(p.normalization), p.canonical()),
        p.print() == hex(sha256_of(encode_utf8(p.canonical()))),
{
    let c = p.canonical();
    let t8 = "}"@;
    let e = json_string(p.vector_encoding_version@);
    let t7 = ",\"vector_encoding_version\":"@ + (e + t8);
    let d = json_string(p.store_key@);
    let t6 = ",\"store_key\":"@ + (d + t7);
    let r = json_string(p.representation_version@);
    let t5 = ",\"representation_version\":"@ + (r + t6);
    let k = json_string(p.provider_kind@);
    let t4 = ",\"provider_kind\":"@ + (k + t5);
    let n = normalization_name(p.normalization);
    let t3 = ",\"normalization\":"@ + (n + t4);
    let m = json_string(p.model@);
    let t2 = ",\"model\":"@ + (m + t3);
    let q = metric_name(p.distance_metric);
    let t1 = ",\"distance_metric\":"@ + (q + t2);
    let dim = decimal(p.dimensions as nat);
    let h0 = "{\"dimensions\":"@;
    let h1 = h0 + dim + ",\"distance_metric\":"@;
    let h2 = h1 + q + ",\"model\":"@;
    let h3 = h2 + m + ",\"normalization\":"@;
    let h4 = h3 + n + ",\"provider_kind\":"@;
    let h5 = h4 + k + ",\"representation_version\":"@;
    let h6 = h5 + r + ",\"store_key\":"@;
    let h7 = h6 + d + ",\"vector_encoding_version\":"@;
    lemma_stands_in(h7, e, t8, c);
    lemma_regrouped(h6, d, ",\"vector_encoding_version\":"@, e, t8);
    lemma_stands_in(h6, d, t7, c);
    lemma_regrouped(h5, r, ",\"store_key\":"@, d, t7);
    lemma_stands_in(h5, r, t6, c);
    lemma_regrouped(h4, k, ",\"representation_version\":"@, r, t6);
    lemma_stands_in(h4, k, t5, c);
    lemma_regrouped(h3, n, ",\"provider_kind\":"@, k, t5);
    lemma_stands_in(h3, n, t4, c);
    lemma_regrouped(h2, m, ",\"normalization\":"@, n, t4);
    lemma_stands_in(h2, m, t3, c);
    lemma_regrouped(h1, q, ",\"model\":"@, m, t3);
    lemma_stands_in(h1, q, t2, c);
    lemma_regrouped(h0, dim, ",\"distance_metric\":"@, q, t2);
    lemma_stands_in(h0, dim, t1, c);
}

proof fn lemma_regrouped(h: Seq<char>, a: Seq<char>, b: Seq<char>, c: Seq<char>, t: Seq<char>)
    ensures
        h + a + b + c + t == h + a + (b + (c + t)),
{
    assert(h + a + b + c + t =~= h + a + (b + (c + t)));
}

/// One text is part of another.
pub open spec fn stands_in(part: Seq<char>, whole: Seq<char>) -> bool {
    exists|i: int|
        0 <= i && i + part.len() <= whole.len() && #[trigger] whole.subrange(i, i + part.len()) == part
}

proof fn lemma_stands_in(a: Seq<char>, part: Seq<char>, b: Seq<char>, whole: Seq<char>)
    requires
        whole == a + part + b,
    ensures
        stands_in(part, whole),
{
    let i = a.len() as int;
    assert(whole.subrange(i, i + part.len()) =~= part);
}

/// A vector fits a profile exactly where it has a finite component for each
/// dimension. The bits of infinities and of what is no number are those with all
/// eight bits of the exponent set.
pub proof fn law_a_vector_fits_by_its_components(p: IndexProfile, vector: Seq<u32>)
    ensures
        p.fits(vector) <==> vector.len() == p.dimensions && forall|i: int|
            0 <= i < vector.len() ==> (#[trigger] vector[i]) & 0x7f80_0000 != 0x7f80_0000,
{
    assert forall|i: int| 0 <= i < vector.len() implies (finite(#[trigger] vector[i]) <==> vector[i] & 0x7f80_0000
        != 0x7f80_0000) by {
        let b = vector[i];
        assert(((b / 8_388_608) % 256 != 255) <==> (b & 0x7f80_0000 != 0x7f80_0000)) by (bit_vector);
    }
}

/// What is served is what the state names, whether it is being replaced, or its
/// replacement failed, or neither; and vectors are written for it and for what is
/// being built, and for nothing else.
pub proof fn law_who_is_served_and_who_is_written(p: u128, q: u128, other: u128, reason: String)
    ensures
        StoreState::LegacyCompat.serves() is None,
        StoreState::Active(p).serves() == Some(p),
        (StoreState::Rebuilding { serving: Some(p), candidate: q }).serves() == Some(p),
        (StoreState::Rebuilding { serving: None, candidate: q }).serves() is None,
        (StoreState::Failed { serving: Some(p), candidate: q, reason }).serves() == Some(p),
        (StoreState::Failed { serving: None, candidate: q, reason }).serves() is None,
        !StoreState::LegacyCompat.writable(other),
        StoreState::Active(p).writable(other) <==> other == p,
        (StoreState::Rebuilding { serving: Some(p), candidate: q }).writable(other) <==> other == p || other == q,
        (StoreState::Rebuilding { serving: None, candidate: q }).writable(other) <==> other == q,
        (StoreState::Failed { serving: Some(p), candidate: q, reason }).writable(other) <==> other == p,
        !(StoreState::Failed { serving: None, candidate: q, reason }).writable(other),
{
}

/// Every row that was written of a state is read: a name that there is, with the
/// identifiers and the reason that it takes, stands for a state.
pub proof fn law_every_stored_state_is_read(row: RegistryRow)
    requires
        stored_id(row.serving) is Some,
        stored_id(row.candidate) is Some,
    ensures
        row.state@ == "LegacyCompat"@ && row.serving is None && row.candidate is None && row.reason is None ==> decodes(
            row,
            StoreState::LegacyCompat,
        ),
        row.state@ == "Active"@ && row.serving is Some && row.candidate is None && row.reason is None ==> decodes(
            row,
            StoreState::Active(uuid_of(row.serving->0@)->0),
        ),
        row.state@ == "Rebuilding"@ && row.candidate is Some && row.reason is None ==> decodes(
            row,
            StoreState::Rebuilding {
                serving: stored_id(row.serving)->0,
                candidate: uuid_of(row.candidate->0@)->0,
            },
        ),
        row.state@ == "Failed"@ && row.candidate is Some && row.reason is Some ==> decodes(
            row,
            StoreState::Failed {
                serving: stored_id(row.serving)->0,
                candidate: uuid_of(row.candidate->0@)->0,
                reason: row.reason->0,
            },
        ),
        row.serving matches Some(t) ==> stored_id(row.serving)->0 == uuid_of(t@),
        row.serving is None ==> stored_id(row.serving)->0 is None,
{
}

/// Which profiles vectors may be built for: one with an identifier, of the one
/// store and the one encoding, with one to 65536 dimensions and names that can be
/// read.
pub proof fn law_which_profiles_are_valid(p: IndexProfile)
    ensures
        p.valid() <==> p.id != 0 && p.store_key@ == "default"@ && p.vector_encoding_version@ == "f32le-v1"@ && 1
            <= p.dimensions <= 65_536 && plain_label(p.provider_kind@) && plain_label(p.model@) && plain_label(
            p.representation_version@,
        ),
{
}

/// No two metrics, and no two normalizations, share a name.
pub proof fn law_metrics_have_their_own_names(
    a: DistanceMetric,
    b: DistanceMetric,
    m: Normalization,
    n: Normalization,
)
    ensures
        metric_name(a) == metric_name(b) ==> a == b,
        normalization_name(m) == normalization_name(n) ==> m == n,
{
    reveal_strlit("\"Cosine\"");
    reveal_strlit("\"InnerProduct\"");
    reveal_strlit("\"L2Squared\"");
    reveal_strlit("\"None\"");
    reveal_strlit("\"L2\"");
    assert("\"Cosine\""@.len() == 8 && "\"InnerProduct\""@.len() == 14 && "\"L2Squared\""@.len() == 11);
    assert("\"None\""@.len() == 6 && "\"L2\""@.len() == 4);
}

} // verus!
