use vstd::prelude::*;
use std::collections::hash_map::DefaultHasher;
use std::hash::{Hash, Hasher};
use vstd::std_specs::hash::DefaultHasherAdditionalSpecFns;
use crate::common::commands::{Command, key_of, model_of, parses};
use crate::http::{body_of, decode_lossy, request_body, utf8_lossy};
use crate::numbers::{decimal, format_u64};

verus! {

/// The writes that `<String as Hash>::hash` makes into a hasher, each
/// taken as its bytes.
pub uninterp spec fn string_hash_writes(key: Seq<char>) -> Seq<Seq<u8>>;

/// Feeds `key` to `hasher` with `<String as Hash>::hash`.
///
/// The contract claims that what is written depends on the string alone
/// and comes after what the hasher was fed before; it names those writes
/// and says nothing of their bytes.
#[verifier::external_body]
fn feed_key(key: &String, hasher: &mut DefaultHasher)
    ensures
        final(hasher)@ == old(hasher)@ + string_hash_writes(key@),
{
    key.hash(hasher);
}

/// What a fresh `DefaultHasher` gives for a string: fed the string, then
/// finished.
pub open spec fn default_hash(key: Seq<char>) -> u64 {
    DefaultHasher::spec_finish(string_hash_writes(key))
}

/// Hashes a string with a fresh `std::collections::hash_map::DefaultHasher`.
fn hash_key(key: &String) -> (h: u64)
    ensures
        h == default_hash(key@),
{
    let mut hasher = DefaultHasher::new();
    feed_key(key, &mut hasher);
    assert(hasher@ =~= string_hash_writes(key@));
    hasher.finish()
}

/// The shard that serves a key: its hash, cut to 32 bits, modulo the number
/// of shards.
pub open spec fn shard_of(hash: u64, num_shards: u32) -> u32 {
    ((hash as u32) % num_shards) as u32
}

/// Spreads keys over a number of shards whose ports follow `offset`.
pub struct CommandDistributor {
    pub num_shards: u32,
    pub offset: u32,
}

impl CommandDistributor {
    pub fn new(num_shards: u32, offset: u32) -> (d: CommandDistributor)
        ensures
            d.num_shards == num_shards,
            d.offset == offset,
    {
        CommandDistributor { num_shards, offset }
    }

    /// The shard, in `0..num_shards`, that serves `key`.
    pub fn which(&self, key: String) -> (s: u32)
        requires
            self.num_shards > 0,
        ensures
            s == shard_of(default_hash(key@), self.num_shards),
            s < self.num_shards,
    {
        let h = hash_key(&key);
        self.shard_for_hash(h)
    }

    /// The shard for a key given the key's hash.
    pub fn shard_for_hash(&self, hash: u64) -> (s: u32)
        requires
            self.num_shards > 0,
        ensures
            s == shard_of(hash, self.num_shards),
            s < self.num_shards,
    {
        (hash as u32) % self.num_shards
    }
}

/// The address of the shard that listens on `port` on this machine.
pub open spec fn shard_address(port: nat) -> Seq<char> {
    "http://127.0.0.1:"@ + decimal(port)
}

impl CommandDistributor {
    /// The address of the `shard`-th shard, whose port is `offset + shard`.
    pub fn address_of(&self, shard: u32) -> (a: String)
        requires
            self.offset + shard <= u32::MAX,
        ensures
            a@ == shard_address((self.offset + shard) as nat),
    {
        let mut a = String::from_str("http://127.0.0.1:");
        let port = format_u64((self.offset + shard) as u64);
        a.append(port.as_str());
        a
    }

    /// Reads the command in a request body and picks the shard that serves
    /// its key; `None` when the body cannot be read as a command, or when
    /// that shard's port would pass `u32::MAX`.
    pub fn route(&self, body: &str) -> (r: Option<(Command, String)>)
        requires
            self.num_shards > 0,
        ensures
            r is Some <==> routable(self.num_shards, self.offset, body@),
            r matches Some((c, a)) ==> {
                &&& c.model() == model_of(body@)
                &&& a@ == shard_address(route_port(self.num_shards, self.offset, body@))
            },
    {
        match Command::try_new(body) {
            None => None,
            Some(cmd) => {
                let h = self.which(cmd.get_key());
                if h > u32::MAX - self.offset {
                    None
                } else {
                    let a = self.address_of(h);
                    Some((cmd, a))
                }
            },
        }
    }

    /// Reads the command in a request that a client sent, as raw bytes, and
    /// picks the shard that serves its key: the bytes are decoded, the body
    /// taken and routed. `None` when the body cannot be taken, or `route`
    /// gives `None`.
    pub fn map_command(&self, buffer: &[u8]) -> (r: Option<(Command, String)>)
        requires
            self.num_shards > 0,
        ensures
            match body_of(utf8_lossy(buffer@)) {
                Some(body) => {
                    &&& r is Some <==> routable(self.num_shards, self.offset, body)
                    &&& r matches Some((c, a)) ==> {
                        &&& c.model() == model_of(body)
                        &&& a@ == shard_address(route_port(self.num_shards, self.offset, body))
                    }
                },
                None => r is None,
            },
    {
        let text = decode_lossy(buffer);
        match request_body(text.as_str()) {
            None => None,
            Some(body) => self.route(body.as_str()),
        }
    }
}

/// The port of the shard that serves the command in `body`.
pub open spec fn route_port(num_shards: u32, offset: u32, body: Seq<char>) -> nat {
    (offset + shard_of(default_hash(key_of(model_of(body))), num_shards)) as nat
}

/// `body` holds a command, and the port of the shard that serves it fits
/// in a `u32`.
pub open spec fn routable(num_shards: u32, offset: u32, body: Seq<char>) -> bool {
    parses(body) && route_port(num_shards, offset, body) <= u32::MAX
}

} // verus!
