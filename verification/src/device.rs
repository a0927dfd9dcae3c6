//! Device identity and pairing: this device's own identity, and the list of
//! remote devices it is pairing with, trusts, or has turned away.

use std::collections::hash_map::DefaultHasher;
use std::hash::{Hash, Hasher};
use vstd::prelude::*;

use crate::clock::{now_millis, now_nanos};
use crate::text::{decimal, decimal_chars, digit, digit_char, from_chars, push_str, str_eq};

verus! {

broadcast use vstd::string::group_string_axioms;

/// The lowercase hexadecimal digit for `d < 16`.
pub open spec fn hex_digit(d: nat) -> char {
    if d < 10 {
        digit(d)
    } else if d == 10 {
        'a'
    } else if d == 11 {
        'b'
    } else if d == 12 {
        'c'
    } else if d == 13 {
        'd'
    } else if d == 14 {
        'e'
    } else {
        'f'
    }
}

fn hex_digit_char(d: u128) -> (c: char)
    requires
        d < 16,
    ensures
        c == hex_digit(d as nat),
{
    if d < 10 {
        digit_char(d as usize)
    } else if d == 10 {
        'a'
    } else if d == 11 {
        'b'
    } else if d == 12 {
        'c'
    } else if d == 13 {
        'd'
    } else if d == 14 {
        'e'
    } else {
        'f'
    }
}

/// `n` in lowercase hexadecimal without leading zeros, as `{:x}` writes it.
pub open spec fn hex(n: nat) -> Seq<char>
    decreases n,
{
    if n < 16 {
        seq![hex_digit(n)]
    } else {
        hex(n / 16).push(hex_digit(n % 16))
    }
}

/// `hex(n)` with zeros in front up to `width` characters, as `{:0w$x}`
/// writes it for a width `w`.
pub open spec fn hex_padded(n: nat, width: nat) -> Seq<char> {
    if hex(n).len() >= width {
        hex(n)
    } else {
        Seq::new((width - hex(n).len()) as nat, |i: int| '0') + hex(n)
    }
}

/// Sixteen to the power `k`.
pub open spec fn pow16(k: nat) -> nat
    decreases k,
{
    if k == 0 {
        1
    } else {
        16 * pow16((k - 1) as nat)
    }
}

/// A number below `16^k` has at most `k` hexadecimal digits.
pub proof fn lemma_hex_len(n: nat, k: nat)
    requires
        k >= 1,
        n < pow16(k),
    ensures
        hex(n).len() <= k,
    decreases k,
{
    if n >= 16 {
        let p = pow16((k - 1) as nat);
        assert(n / 16 < p) by (nonlinear_arith)
            requires
                n < 16 * p,
        ;
        lemma_hex_len(n / 16, (k - 1) as nat);
    }
}

fn hex_chars(n: u128) -> (r: Vec<char>)
    ensures
        r@ == hex(n as nat),
    decreases n,
{
    let c = hex_digit_char(n % 16);
    if n < 16 {
        let mut r = Vec::new();
        r.push(c);
        r
    } else {
        let mut r = hex_chars(n / 16);
        r.push(c);
        r
    }
}

fn hex_padded_chars(n: u128, width: usize) -> (r: Vec<char>)
    ensures
        r@ == hex_padded(n as nat, width as nat),
{
    let mut h = hex_chars(n);
    let ghost hv = h@;
    let mut r: Vec<char> = Vec::new();
    if h.len() < width {
        let pad = width - h.len();
        let mut i: usize = 0;
        while i < pad
            invariant
                i <= pad,
                r@ == Seq::new(i as nat, |k: int| '0'),
            decreases pad - i,
        {
            r.push('0');
            assert(r@ =~= Seq::new((i + 1) as nat, |k: int| '0'));
            i = i + 1;
        }
    }
    r.append(&mut h);
    assert(r@ =~= hex_padded(n as nat, width as nat));
    r
}

/// This device's identity. `created_at` is milliseconds since the Unix
/// epoch.
#[derive(Debug)]
pub struct DeviceIdentity {
    pub device_id: String,
    pub public_key_hex: String,
    pub created_at: i64,
    pub device_name: String,
}

/// The id made from a clock reading in nanoseconds: `dev_` and the reading
/// modulo `0xFFFF_FFFF` in hexadecimal.
pub open spec fn device_id_for(nanos: u128) -> Seq<char> {
    seq!['d', 'e', 'v', '_'] + hex((nanos % 0xFFFF_FFFF) as nat)
}

/// The placeholder public key made from a clock reading: `04` and the
/// reading in 64 hexadecimal digits.
pub open spec fn mock_pubkey_for(nanos: u128) -> Seq<char> {
    seq!['0', '4'] + hex_padded(nanos as nat, 64)
}

/// Hashes the text with a `DefaultHasher` made by `DefaultHasher::new`.
/// std leaves the hash algorithm unspecified, so nothing is stated of the
/// value.
#[verifier::external_body]
fn default_hash(s: &str) -> (r: u64) {
    let mut hasher = DefaultHasher::new();
    s.hash(&mut hasher);
    hasher.finish()
}

impl DeviceIdentity {
    /// The identity made from two clock readings in nanoseconds (one for the
    /// id, one for the key) and a creation time.
    pub fn from_clock_readings(device_name: &str, id_nanos: u128, key_nanos: u128, created_at: i64) -> (r: Self)
        ensures
            r.device_id@ == device_id_for(id_nanos),
            r.public_key_hex@ == mock_pubkey_for(key_nanos),
            r.created_at == created_at,
            r.device_name@ == device_name@,
    {
        let mut id: Vec<char> = Vec::new();
        push_str(&mut id, "dev_");
        proof {
            reveal_strlit("dev_");
        }
        let mut digits = hex_chars(id_nanos % 0xFFFF_FFFF);
        id.append(&mut digits);
        let mut key: Vec<char> = Vec::new();
        push_str(&mut key, "04");
        proof {
            reveal_strlit("04");
        }
        let mut kd = hex_padded_chars(key_nanos, 64);
        key.append(&mut kd);
        assert(id@ =~= device_id_for(id_nanos));
        assert(key@ =~= mock_pubkey_for(key_nanos));
        DeviceIdentity {
            device_id: from_chars(&id),
            public_key_hex: from_chars(&key),
            created_at,
            device_name: device_name.to_owned(),
        }
    }

    /// A new identity with an id and a placeholder key taken from the clock.
    pub fn generate(device_name: &str) -> (r: Self)
        ensures
            exists|a: u128| #[trigger] device_id_for(a) == r.device_id@,
            exists|b: u128| #[trigger] mock_pubkey_for(b) == r.public_key_hex@,
            r.device_name@ == device_name@,
    {
        let a = now_nanos();
        let b = now_nanos();
        let created = now_millis();
        DeviceIdentity::from_clock_readings(device_name, a, b, created)
    }

    /// The fingerprint for a key hash: its 16 hexadecimal digits.
    pub fn fingerprint_of(hash: u64) -> (r: String)
        ensures
            r@ == hex_padded(hash as nat, 16),
            r@.len() == 16,
    {
        let v = hex_padded_chars(hash as u128, 16);
        proof {
            reveal_with_fuel(pow16, 17);
            assert(pow16(16) == 0x1_0000_0000_0000_0000);
            lemma_hex_len(hash as nat, 16);
        }
        from_chars(&v)
    }

    /// The fingerprint of the public key: its hash in 16 hexadecimal digits.
    pub fn fingerprint(&self) -> (r: String)
        ensures
            exists|h: u64| #[trigger] hex_padded(h as nat, 16) == r@,
            r@.len() == 16,
    {
        let h = default_hash(self.public_key_hex.as_str());
        DeviceIdentity::fingerprint_of(h)
    }
}

#[derive(Debug, Clone, Copy, PartialEq, Eq, Structural)]
pub enum PairingState {
    Pending,
    Verified,
    Rejected,
    Expired,
}

/// A remote device in the pairing list. Times are milliseconds since the
/// Unix epoch.
#[derive(Debug)]
pub struct PairedDevice {
    pub device_id: String,
    pub public_key_hex: String,
    pub device_name: String,
    pub state: PairingState,
    pub paired_at: Option<i64>,
    pub last_seen: Option<i64>,
}

/// A paired device as the contracts see it.
pub struct DeviceView {
    pub id: Seq<char>,
    pub key: Seq<char>,
    pub name: Seq<char>,
    pub state: PairingState,
    pub paired_at: Option<i64>,
    pub last_seen: Option<i64>,
}

impl View for PairedDevice {
    type V = DeviceView;

    open spec fn view(&self) -> DeviceView {
        DeviceView {
            id: self.device_id@,
            key: self.public_key_hex@,
            name: self.device_name@,
            state: self.state,
            paired_at: self.paired_at,
            last_seen: self.last_seen,
        }
    }
}

impl Clone for PairedDevice {
    fn clone(&self) -> (r: Self)
        ensures
            r@ == self@,
    {
        PairedDevice {
            device_id: self.device_id.clone(),
            public_key_hex: self.public_key_hex.clone(),
            device_name: self.device_name.clone(),
            state: self.state,
            paired_at: self.paired_at,
            last_seen: self.last_seen,
        }
    }
}

/// Why a pairing operation failed.
#[derive(Debug)]
pub enum DeviceError {
    /// The pairing list is full; its limit.
    LimitReached(usize),
    /// The device is already in the pairing list.
    AlreadyListed(String),
    /// No device has this id.
    NotFound(String),
    /// The device is not waiting for verification.
    NotPending(String),
}

/// The message of an error.
pub open spec fn device_error_message(e: DeviceError) -> Seq<char> {
    match e {
        DeviceError::LimitReached(n) => "maximum paired devices ("@ + decimal(n as nat)
            + ") reached"@,
        DeviceError::AlreadyListed(id) => "device '"@ + id@ + "' is already in pairing list"@,
        DeviceError::NotFound(id) => "device '"@ + id@ + "' not found"@,
        DeviceError::NotPending(id) => "device '"@ + id@ + "' is not in pending state"@,
    }
}

impl DeviceError {
    pub fn to_display_string(&self) -> (r: String)
        ensures
            r@ == device_error_message(*self),
    {
        let mut v: Vec<char> = Vec::new();
        match self {
            DeviceError::LimitReached(n) => {
                push_str(&mut v, "maximum paired devices (");
                let mut d = decimal_chars(*n);
                v.append(&mut d);
                push_str(&mut v, ") reached");
            },
            DeviceError::AlreadyListed(id) => {
                push_str(&mut v, "device '");
                push_str(&mut v, id.as_str());
                push_str(&mut v, "' is already in pairing list");
            },
            DeviceError::NotFound(id) => {
                push_str(&mut v, "device '");
                push_str(&mut v, id.as_str());
                push_str(&mut v, "' not found");
            },
            DeviceError::NotPending(id) => {
                push_str(&mut v, "device '");
                push_str(&mut v, id.as_str());
                push_str(&mut v, "' is not in pending state");
            },
        }
        from_chars(&v)
    }
}

pub open spec fn device_views(ds: Seq<PairedDevice>) -> Seq<DeviceView> {
    ds.map_values(|d: PairedDevice| d@)
}

/// The index of the first device with the given id, or -1.
pub open spec fn device_index(ds: Seq<DeviceView>, id: Seq<char>) -> int
    decreases ds.len(),
{
    if ds.len() == 0 {
        -1
    } else if ds[0].id == id {
        0
    } else if device_index(ds.drop_first(), id) < 0 {
        -1
    } else {
        1 + device_index(ds.drop_first(), id)
    }
}

proof fn lemma_device_index(ds: Seq<DeviceView>, id: Seq<char>, i: int)
    requires
        0 <= i <= ds.len(),
        forall|j: int| 0 <= j < i ==> (#[trigger] ds[j]).id != id,
        i == ds.len() || ds[i].id == id,
    ensures
        device_index(ds, id) == if i == ds.len() {
            -1
        } else {
            i
        },
    decreases i,
{
    if i > 0 {
        assert forall|j: int| 0 <= j < i - 1 implies (#[trigger] ds.drop_first()[j]).id != id by {
            assert(ds.drop_first()[j] == ds[j + 1]);
        }
        if i < ds.len() {
            assert(ds.drop_first()[i - 1] == ds[i]);
        }
        lemma_device_index(ds.drop_first(), id, i - 1);
    }
}

/// When the search finds nothing, no device has the id.
proof fn lemma_device_index_absent(ds: Seq<DeviceView>, id: Seq<char>, j: int)
    requires
        device_index(ds, id) < 0,
        0 <= j < ds.len(),
    ensures
        ds[j].id != id,
    decreases ds.len(),
{
    if j > 0 {
        assert(ds.drop_first()[j - 1] == ds[j]);
        lemma_device_index_absent(ds.drop_first(), id, j - 1);
    }
}

/// No id occurs twice.
pub open spec fn unique_ids(ds: Seq<DeviceView>) -> bool {
    forall|i: int, j: int| 0 <= i < j < ds.len() ==> (#[trigger] ds[i]).id != (#[trigger] ds[j]).id
}

/// Replacing a device by one with the same id keeps the ids unique.
proof fn lemma_same_ids_update(ds: Seq<DeviceView>, i: int, d: DeviceView)
    requires
        0 <= i < ds.len(),
        d.id == ds[i].id,
    ensures
        unique_ids(ds) ==> unique_ids(ds.update(i, d)),
{
    if unique_ids(ds) {
        let u = ds.update(i, d);
        assert forall|a: int, b: int| 0 <= a < b < u.len() implies (#[trigger] u[a]).id != (#[trigger] u[b]).id by {
            assert(ds[a].id != ds[b].id);
        }
    }
}

pub open spec fn is_verified(d: DeviceView) -> bool {
    d.state == PairingState::Verified
}

/// A device after a verified pairing at `now`.
pub open spec fn verified_at(d: DeviceView, now: i64) -> DeviceView {
    DeviceView { state: PairingState::Verified, paired_at: Some(now), last_seen: Some(now), ..d }
}

/// A device after being seen at `now`.
pub open spec fn seen_at(d: DeviceView, now: i64) -> DeviceView {
    DeviceView { last_seen: Some(now), ..d }
}

/// Manages this device's identity and its pairing list, which holds at most
/// `max_paired` devices.
pub struct DeviceManager {
    identity: DeviceIdentity,
    paired_devices: Vec<PairedDevice>,
    max_paired: usize,
}

impl DeviceManager {
    /// The pairing list, oldest first.
    pub closed spec fn devices(&self) -> Seq<DeviceView> {
        device_views(self.paired_devices@)
    }

    pub closed spec fn max_paired(&self) -> usize {
        self.max_paired
    }

    pub closed spec fn own_identity(&self) -> DeviceIdentity {
        self.identity
    }

    pub fn new(identity: DeviceIdentity, max_paired: usize) -> (r: Self)
        ensures
            r.devices().len() == 0,
            unique_ids(r.devices()),
            r.max_paired() == max_paired,
            r.own_identity() == identity,
    {
        DeviceManager { identity, paired_devices: Vec::new(), max_paired }
    }

    pub fn identity(&self) -> (r: &DeviceIdentity)
        ensures
            *r == self.own_identity(),
    {
        &self.identity
    }

    fn find(&self, id: &str) -> (r: Option<usize>)
        ensures
            match r {
                Some(i) => i == device_index(self.devices(), id@) && i < self.paired_devices@.len(),
                None => device_index(self.devices(), id@) == -1,
            },
    {
        let ghost ds = self.devices();
        let mut i: usize = 0;
        while i < self.paired_devices.len()
            invariant
                0 <= i <= self.paired_devices@.len(),
                ds == device_views(self.paired_devices@),
                forall|j: int| 0 <= j < i ==> (#[trigger] ds[j]).id != id@,
            decreases self.paired_devices@.len() - i,
        {
            assert(ds[i as int] == self.paired_devices@[i as int]@);
            if str_eq(self.paired_devices[i].device_id.as_str(), id) {
                proof {
                    lemma_device_index(ds, id@, i as int);
                }
                return Some(i);
            }
            i = i + 1;
        }
        proof {
            lemma_device_index(ds, id@, i as int);
        }
        None
    }

    /// Start pairing with a remote device: refused when the list is full or
    /// already holds the device; otherwise the device joins as pending.
    pub fn initiate_pairing(&mut self, remote_id: &str, remote_pubkey: &str, remote_name: &str) -> (r:
        Result<(), DeviceError>)
        ensures
            final(self).max_paired() == old(self).max_paired(),
            final(self).own_identity() == old(self).own_identity(),
            old(self).devices().len() >= old(self).max_paired() ==> (r matches Err(
                DeviceError::LimitReached(n),
            ) && n == old(self).max_paired() && final(self).devices() == old(self).devices()),
            old(self).devices().len() < old(self).max_paired() && device_index(
                old(self).devices(),
                remote_id@,
            ) >= 0 ==> (r matches Err(DeviceError::AlreadyListed(s)) && s@ == remote_id@
                && final(self).devices() == old(self).devices()),
            old(self).devices().len() < old(self).max_paired() && device_index(
                old(self).devices(),
                remote_id@,
            ) < 0 ==> (r is Ok && final(self).devices() == old(self).devices().push(
                DeviceView {
                    id: remote_id@,
                    key: remote_pubkey@,
                    name: remote_name@,
                    state: PairingState::Pending,
                    paired_at: None,
                    last_seen: None,
                },
            )),
            unique_ids(old(self).devices()) ==> unique_ids(final(self).devices()),
            old(self).devices().len() <= old(self).max_paired() ==> final(self).devices().len()
                <= final(self).max_paired(),
    {
        if self.paired_devices.len() >= self.max_paired {
            return Err(DeviceError::LimitReached(self.max_paired));
        }
        if self.find(remote_id).is_some() {
            return Err(DeviceError::AlreadyListed(remote_id.to_owned()));
        }
        let ghost before = self.devices();
        let device = PairedDevice {
            device_id: remote_id.to_owned(),
            public_key_hex: remote_pubkey.to_owned(),
            device_name: remote_name.to_owned(),
            state: PairingState::Pending,
            paired_at: None,
            last_seen: None,
        };
        let ghost dv = device@;
        self.paired_devices.push(device);
        assert(self.devices() =~= before.push(dv));
        proof {
            if unique_ids(before) {
                assert forall|j: int| 0 <= j < before.len() implies (#[trigger] before[j]).id
                    != remote_id@ by {
                    lemma_device_index_absent(before, remote_id@, j);
                }
                assert forall|a: int, b: int| 0 <= a < b < self.devices().len() implies (
                #[trigger] self.devices()[a]).id != (#[trigger] self.devices()[b]).id by {
                    if b == before.len() {
                        assert(self.devices()[a] == before[a]);
                    } else {
                        assert(self.devices()[a] == before[a]);
                        assert(self.devices()[b] == before[b]);
                    }
                }
            }
        }
        Ok(())
    }

    /// Verify a pending device at time `now`: it becomes trusted, paired and
    /// seen at `now`.
    pub fn verify_pairing_at(&mut self, remote_id: &str, now: i64) -> (r: Result<(), DeviceError>)
        ensures
            unique_ids(old(self).devices()) ==> unique_ids(final(self).devices()),
            final(self).max_paired() == old(self).max_paired(),
            final(self).own_identity() == old(self).own_identity(),
            ({
                let i = device_index(old(self).devices(), remote_id@);
                if i < 0 {
                    r matches Err(DeviceError::NotFound(s)) && s@ == remote_id@ && final(self).devices() == old(self).devices()
                } else if old(self).devices()[i].state != PairingState::Pending {
                    r matches Err(DeviceError::NotPending(s)) && s@ == remote_id@ && final(self).devices() == old(self).devices()
                } else {
                    r is Ok && final(self).devices() == old(self).devices().update(
                        i,
                        verified_at(old(self).devices()[i], now),
                    )
                }
            }),
    {
        match self.find(remote_id) {
            None => Err(DeviceError::NotFound(remote_id.to_owned())),
            Some(i) => {
                if self.paired_devices[i].state != PairingState::Pending {
                    return Err(DeviceError::NotPending(remote_id.to_owned()));
                }
                let ghost before = self.devices();
                let mut d = self.paired_devices.remove(i);
                d.state = PairingState::Verified;
                d.paired_at = Some(now);
                d.last_seen = Some(now);
                self.paired_devices.insert(i, d);
                assert(self.devices() =~= before.update(i as int, verified_at(before[i as int], now)));
                proof {
                    lemma_same_ids_update(before, i as int, verified_at(before[i as int], now));
                }
                Ok(())
            },
        }
    }

    /// Verify a pending device after mutual authentication, at the current
    /// time.
    pub fn verify_pairing(&mut self, remote_id: &str) -> (r: Result<(), DeviceError>)
        ensures
            unique_ids(old(self).devices()) ==> unique_ids(final(self).devices()),
            final(self).max_paired() == old(self).max_paired(),
            final(self).own_identity() == old(self).own_identity(),
            ({
                let i = device_index(old(self).devices(), remote_id@);
                if i < 0 {
                    r matches Err(DeviceError::NotFound(s)) && s@ == remote_id@ && final(self).devices() == old(self).devices()
                } else if old(self).devices()[i].state != PairingState::Pending {
                    r matches Err(DeviceError::NotPending(s)) && s@ == remote_id@ && final(self).devices() == old(self).devices()
                } else {
                    r is Ok && exists|now: i64|
                        final(self).devices() == old(self).devices().update(
                            i,
                            #[trigger] verified_at(old(self).devices()[i], now),
                        )
                }
            }),
    {
        let now = now_millis();
        self.verify_pairing_at(remote_id, now)
    }

    /// Reject a device, whatever its state.
    pub fn reject_pairing(&mut self, remote_id: &str) -> (r: Result<(), DeviceError>)
        ensures
            unique_ids(old(self).devices()) ==> unique_ids(final(self).devices()),
            final(self).max_paired() == old(self).max_paired(),
            final(self).own_identity() == old(self).own_identity(),
            ({
                let i = device_index(old(self).devices(), remote_id@);
                if i < 0 {
                    r matches Err(DeviceError::NotFound(s)) && s@ == remote_id@ && final(self).devices() == old(self).devices()
                } else {
                    r is Ok && final(self).devices() == old(self).devices().update(
                        i,
                        DeviceView { state: PairingState::Rejected, ..old(self).devices()[i] },
                    )
                }
            }),
    {
        match self.find(remote_id) {
            None => Err(DeviceError::NotFound(remote_id.to_owned())),
            Some(i) => {
                let ghost before = self.devices();
                let mut d = self.paired_devices.remove(i);
                d.state = PairingState::Rejected;
                self.paired_devices.insert(i, d);
                assert(self.devices() =~= before.update(
                    i as int,
                    DeviceView { state: PairingState::Rejected, ..before[i as int] },
                ));
                proof {
                    lemma_same_ids_update(
                        before,
                        i as int,
                        DeviceView { state: PairingState::Rejected, ..before[i as int] },
                    );
                }
                Ok(())
            },
        }
    }

    /// Remove a device from the pairing list.
    pub fn unpair(&mut self, remote_id: &str) -> (r: Result<(), DeviceError>)
        ensures
            final(self).max_paired() == old(self).max_paired(),
            final(self).own_identity() == old(self).own_identity(),
            ({
                let i = device_index(old(self).devices(), remote_id@);
                if i < 0 {
                    r matches Err(DeviceError::NotFound(s)) && s@ == remote_id@ && final(self).devices() == old(self).devices()
                } else {
                    r is Ok && final(self).devices() == old(self).devices().remove(i)
                }
            }),
            unique_ids(old(self).devices()) ==> unique_ids(final(self).devices()),
            old(self).devices().len() <= old(self).max_paired() ==> final(self).devices().len()
                <= final(self).max_paired(),
    {
        match self.find(remote_id) {
            None => Err(DeviceError::NotFound(remote_id.to_owned())),
            Some(i) => {
                let ghost before = self.devices();
                self.paired_devices.remove(i);
                assert(self.devices() =~= before.remove(i as int));
                proof {
                    if unique_ids(before) {
                        assert forall|a: int, b: int| 0 <= a < b < self.devices().len() implies (
                        #[trigger] self.devices()[a]).id != (#[trigger] self.devices()[b]).id by {
                            let a2 = if a < i { a } else { a + 1 };
                            let b2 = if b < i { b } else { b + 1 };
                            assert(self.devices()[a] == before[a2]);
                            assert(self.devices()[b] == before[b2]);
                        }
                    }
                }
                Ok(())
            },
        }
    }

    /// Record that a listed device was seen at `now`; no change for a device
    /// not in the list.
    pub fn record_seen_at(&mut self, remote_id: &str, now: i64)
        ensures
            unique_ids(old(self).devices()) ==> unique_ids(final(self).devices()),
            final(self).max_paired() == old(self).max_paired(),
            final(self).own_identity() == old(self).own_identity(),
            ({
                let i = device_index(old(self).devices(), remote_id@);
                if i < 0 {
                    final(self).devices() == old(self).devices()
                } else {
                    final(self).devices() == old(self).devices().update(
                        i,
                        seen_at(old(self).devices()[i], now),
                    )
                }
            }),
    {
        match self.find(remote_id) {
            None => {},
            Some(i) => {
                let ghost before = self.devices();
                let mut d = self.paired_devices.remove(i);
                d.last_seen = Some(now);
                self.paired_devices.insert(i, d);
                assert(self.devices() =~= before.update(i as int, seen_at(before[i as int], now)));
                proof {
                    lemma_same_ids_update(before, i as int, seen_at(before[i as int], now));
                }
            },
        }
    }

    /// Record that a listed device was seen now.
    pub fn record_seen(&mut self, remote_id: &str)
        ensures
            unique_ids(old(self).devices()) ==> unique_ids(final(self).devices()),
            final(self).max_paired() == old(self).max_paired(),
            final(self).own_identity() == old(self).own_identity(),
            ({
                let i = device_index(old(self).devices(), remote_id@);
                if i < 0 {
                    final(self).devices() == old(self).devices()
                } else {
                    exists|now: i64|
                        final(self).devices() == old(self).devices().update(
                            i,
                            #[trigger] seen_at(old(self).devices()[i], now),
                        )
                }
            }),
    {
        let now = now_millis();
        self.record_seen_at(remote_id, now);
    }

    /// The verified devices, in list order.
    pub fn trusted_devices(&self) -> (r: Vec<PairedDevice>)
        ensures
            device_views(r@) == self.devices().filter(|d: DeviceView| is_verified(d)),
    {
        let ghost ds = self.devices();
        let mut out: Vec<PairedDevice> = Vec::new();
        let mut i: usize = 0;
        while i < self.paired_devices.len()
            invariant
                0 <= i <= self.paired_devices@.len(),
                ds == device_views(self.paired_devices@),
                device_views(out@) == ds.take(i as int).filter(|d: DeviceView| is_verified(d)),
            decreases self.paired_devices@.len() - i,
        {
            reveal_with_fuel(Seq::<_>::filter, 1);
            assert(ds.take(i + 1).drop_last() =~= ds.take(i as int));
            assert(ds.take(i + 1).last() == self.paired_devices@[i as int]@);
            if self.paired_devices[i].state == PairingState::Verified {
                let ghost o0 = device_views(out@);
                out.push(self.paired_devices[i].clone());
                assert(device_views(out@) =~= o0.push(self.paired_devices@[i as int]@));
            }
            i = i + 1;
        }
        assert(ds.take(self.paired_devices@.len() as int) =~= ds);
        out
    }

    /// Every listed device, in list order.
    pub fn all_devices(&self) -> (r: Vec<PairedDevice>)
        ensures
            device_views(r@) == self.devices(),
    {
        let ghost ds = self.devices();
        let mut out: Vec<PairedDevice> = Vec::new();
        let mut i: usize = 0;
        while i < self.paired_devices.len()
            invariant
                0 <= i <= self.paired_devices@.len(),
                ds == device_views(self.paired_devices@),
                device_views(out@) == ds.take(i as int),
            decreases self.paired_devices@.len() - i,
        {
            let ghost o0 = device_views(out@);
            out.push(self.paired_devices[i].clone());
            assert(device_views(out@) =~= o0.push(ds[i as int]));
            assert(ds.take(i + 1) =~= ds.take(i as int).push(ds[i as int]));
            i = i + 1;
        }
        assert(ds.take(self.paired_devices@.len() as int) =~= ds);
        out
    }

    pub fn paired_count(&self) -> (r: usize)
        ensures
            r == self.devices().len(),
    {
        self.paired_devices.len()
    }

    /// Whether the device is listed and verified.
    pub fn is_trusted(&self, remote_id: &str) -> (r: bool)
        ensures
            r == (device_index(self.devices(), remote_id@) >= 0 && is_verified(
                self.devices()[device_index(self.devices(), remote_id@)],
            )),
    {
        match self.find(remote_id) {
            None => false,
            Some(i) => self.paired_devices[i].state == PairingState::Verified,
        }
    }
}

} // verus!
