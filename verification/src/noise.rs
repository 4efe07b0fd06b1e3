//! End-to-end encryption for direct messages, using the Noise Protocol Framework (pattern
//! `Noise_XX_25519_ChaChaPoly_SHA256`) via the vetted `snow` crate.
//!
//! XX is mutually authenticated and hides both parties' static keys until the peer is
//! authenticated. Both sides transmit their static public key *inside* the handshake, so it can be
//! bound to the peer's advertised identity (its announced X25519 key) to reject a
//! man-in-the-middle.
//!
//! Handshake message flow (each `write_handshake` produces a packet to send; each
//! `read_handshake` consumes one):
//! ```text
//! initiator ->  msg1 (e)
//! responder <-  msg2 (e, ee, s, es)
//! initiator ->  msg3 (s, se)          both sides now in transport mode
//! ```
//!
//! The handshake draws fresh ephemeral keys, so nothing is claimed of the bytes `snow` produces;
//! what is verified here is the session's state machine around it.

use vstd::prelude::*;

use crate::error::Error;
use snow::params::NoiseParams;
use snow::{Builder, HandshakeState, TransportState};

verus! {

/// `snow::HandshakeState`, carried opaquely.
#[verifier::external_type_specification]
#[verifier::external_body]
pub struct ExHandshakeState(HandshakeState);

/// `snow::TransportState`, carried opaquely.
#[verifier::external_type_specification]
#[verifier::external_body]
pub struct ExTransportState(TransportState);

/// `snow::params::NoiseParams`, carried opaquely.
#[verifier::external_type_specification]
#[verifier::external_body]
pub struct ExNoiseParams(NoiseParams);

/// The AEAD tag every transport message carries (ChaChaPoly).
pub const TAG_LEN: usize = 16;

/// Calls `str::parse::<NoiseParams>` on `name`. Nothing is claimed.
#[verifier::external_body]
fn parse_params(name: &str) -> Option<NoiseParams> {
    name.parse().ok()
}

/// Calls `snow::Builder::new(params).local_private_key(key).build_initiator()`. Nothing is
/// claimed of the state; the error text comes from `snow`.
#[verifier::external_body]
fn build_initiator(params: NoiseParams, local_private: &[u8; 32]) -> Result<HandshakeState, String> {
    Builder::new(params).local_private_key(local_private).build_initiator().map_err(|e| e.to_string())
}

/// Calls `snow::Builder::new(params).local_private_key(key).build_responder()`. Nothing is
/// claimed of the state; the error text comes from `snow`.
#[verifier::external_body]
fn build_responder(params: NoiseParams, local_private: &[u8; 32]) -> Result<HandshakeState, String> {
    Builder::new(params).local_private_key(local_private).build_responder().map_err(|e| e.to_string())
}

/// Calls `snow::HandshakeState::write_message` with an empty payload into a 1024-byte buffer, and
/// keeps the bytes written. Nothing is claimed of them (they carry fresh ephemeral keys).
#[verifier::external_body]
fn handshake_write(hs: &mut HandshakeState) -> Result<Vec<u8>, String> {
    let mut buf = vec![0u8; 1024];
    match hs.write_message(&[], &mut buf) {
        Ok(n) => {
            buf.truncate(n);
            Ok(buf)
        },
        Err(e) => Err(e.to_string()),
    }
}

/// Calls `snow::HandshakeState::read_message` into a 1024-byte buffer. Nothing is claimed.
#[verifier::external_body]
fn handshake_read(hs: &mut HandshakeState, msg: &[u8]) -> Result<(), String> {
    let mut buf = vec![0u8; 1024];
    match hs.read_message(msg, &mut buf) {
        Ok(_) => Ok(()),
        Err(e) => Err(e.to_string()),
    }
}

/// Calls `snow::HandshakeState::is_handshake_finished`. Nothing is claimed.
#[verifier::external_body]
fn handshake_finished(hs: &HandshakeState) -> bool {
    hs.is_handshake_finished()
}

/// Calls `snow::HandshakeState::get_remote_static`, copying the key out. Nothing is claimed.
#[verifier::external_body]
fn handshake_remote_static(hs: &HandshakeState) -> Option<Vec<u8>> {
    hs.get_remote_static().map(|k| k.to_vec())
}

/// Calls `snow::HandshakeState::into_transport_mode`. Nothing is claimed.
#[verifier::external_body]
fn into_transport(hs: HandshakeState) -> Result<TransportState, String> {
    hs.into_transport_mode().map_err(|e| e.to_string())
}

/// Calls `snow::TransportState::get_remote_static`, copying the key out. Nothing is claimed.
#[verifier::external_body]
fn transport_remote_static(ts: &TransportState) -> Option<Vec<u8>> {
    ts.get_remote_static().map(|k| k.to_vec())
}

/// Calls `snow::TransportState::write_message` into a buffer 64 bytes longer than the plaintext.
/// Claimed: a ciphertext is the plaintext's length plus the 16-byte tag (`CipherState::encrypt`
/// returns `payload.len() + TAGLEN`).
#[verifier::external_body]
fn transport_encrypt(ts: &mut TransportState, plaintext: &[u8]) -> (r: Result<Vec<u8>, String>)
    ensures
        r is Ok ==> r->Ok_0@.len() == plaintext@.len() + TAG_LEN,
{
    let mut buf = vec![0u8; plaintext.len() + 64];
    match ts.write_message(plaintext, &mut buf) {
        Ok(n) => {
            buf.truncate(n);
            Ok(buf)
        },
        Err(e) => Err(e.to_string()),
    }
}

/// Calls `snow::TransportState::read_message` into a buffer 64 bytes longer than the ciphertext.
/// Claimed: a plaintext is the ciphertext's length less the 16-byte tag (`CipherState::decrypt`
/// rejects anything shorter than the tag and returns `len - TAGLEN`).
#[verifier::external_body]
fn transport_decrypt(ts: &mut TransportState, ciphertext: &[u8]) -> (r: Result<Vec<u8>, String>)
    ensures
        r is Ok ==> r->Ok_0@.len() + TAG_LEN == ciphertext@.len(),
{
    let mut buf = vec![0u8; ciphertext.len() + 64];
    match ts.read_message(ciphertext, &mut buf) {
        Ok(n) => {
            buf.truncate(n);
            Ok(buf)
        },
        Err(e) => Err(e.to_string()),
    }
}

enum Inner {
    Handshake(Box<HandshakeState>),
    Transport(Box<TransportState>),
    /// Transient state only observed mid-transition; any operation on it errors.
    Poisoned,
}

/// Where a session is in its life.
#[derive(Debug, Clone, Copy, PartialEq, Eq, Structural)]
pub enum Phase {
    Handshake,
    Transport,
    Poisoned,
}

/// One Noise session with a single peer. Drive the handshake with [`NoiseSession::write_handshake`]
/// / [`NoiseSession::read_handshake`], then [`NoiseSession::encrypt`] / [`NoiseSession::decrypt`].
pub struct NoiseSession {
    inner: Inner,
    pub initiator: bool,
    /// The handshake messages handed to the state machine, read and written, in order.
    transcript: Ghost<Seq<Seq<u8>>>,
    /// The plaintexts handed to transport encryption, in order.
    sealed: Ghost<Seq<Seq<u8>>>,
    /// The ciphertexts handed to transport decryption, in order.
    opened: Ghost<Seq<Seq<u8>>>,
    /// The plaintexts transport decryption gave back, in order.
    recovered: Ghost<Seq<Seq<u8>>>,
}

impl NoiseSession {
    /// Whether this side started the handshake.
    pub closed spec fn initiates(&self) -> bool {
        self.initiator
    }

    /// The handshake messages this session has consumed or produced, in order.
    pub closed spec fn transcript(&self) -> Seq<Seq<u8>> {
        self.transcript@
    }

    /// The plaintexts this session has been asked to encrypt, in order.
    pub closed spec fn sealed(&self) -> Seq<Seq<u8>> {
        self.sealed@
    }

    /// The ciphertexts this session has been asked to decrypt, in order.
    pub closed spec fn opened(&self) -> Seq<Seq<u8>> {
        self.opened@
    }

    /// The plaintexts this session's transport decryption has given back, in order.
    pub closed spec fn recovered(&self) -> Seq<Seq<u8>> {
        self.recovered@
    }

    pub closed spec fn phase(&self) -> Phase {
        match self.inner {
            Inner::Handshake(_) => Phase::Handshake,
            Inner::Transport(_) => Phase::Transport,
            Inner::Poisoned => Phase::Poisoned,
        }
    }

    fn new_session(local_private: &[u8; 32], initiator: bool) -> (r: Result<Self, Error>)
        ensures
            r matches Ok(s) ==> s.phase() == Phase::Handshake && s.initiates() == initiator
                && s.transcript() == Seq::<Seq<u8>>::empty() && s.sealed() == Seq::<Seq<u8>>::empty()
                && s.opened() == Seq::<Seq<u8>>::empty(),
            r matches Err(e) ==> e is Noise,
    {
        // The protocol this library speaks: XX over X25519, ChaCha20-Poly1305 and SHA-256.
        let params = match parse_params("Noise_XX_25519_ChaChaPoly_SHA256") {
            Some(p) => p,
            None => return Err(Error::Noise("bad noise params".to_string())),
        };
        let built = if initiator {
            build_initiator(params, local_private)
        } else {
            build_responder(params, local_private)
        };
        match built {
            Ok(hs) => Ok(
                NoiseSession {
                    inner: Inner::Handshake(Box::new(hs)),
                    initiator,
                    transcript: Ghost(Seq::empty()),
                    sealed: Ghost(Seq::empty()),
                    opened: Ghost(Seq::empty()),
                    recovered: Ghost(Seq::empty()),
                },
            ),
            Err(msg) => Err(Error::Noise(msg)),
        }
    }

    /// Start a session as the initiator, using our 32-byte X25519 static private key.
    pub fn new_initiator(local_private: &[u8; 32]) -> (r: Result<Self, Error>)
        ensures
            r matches Ok(s) ==> s.phase() == Phase::Handshake && s.initiates() && s.transcript()
                == Seq::<Seq<u8>>::empty() && s.sealed() == Seq::<Seq<u8>>::empty() && s.opened()
                == Seq::<Seq<u8>>::empty(),
            r matches Err(e) ==> e is Noise,
    {
        Self::new_session(local_private, true)
    }

    /// Start a session as the responder.
    pub fn new_responder(local_private: &[u8; 32]) -> (r: Result<Self, Error>)
        ensures
            r matches Ok(s) ==> s.phase() == Phase::Handshake && !s.initiates() && s.transcript()
                == Seq::<Seq<u8>>::empty() && s.sealed() == Seq::<Seq<u8>>::empty() && s.opened()
                == Seq::<Seq<u8>>::empty(),
            r matches Err(e) ==> e is Noise,
    {
        Self::new_session(local_private, false)
    }

    pub fn is_ready(&self) -> (b: bool)
        ensures
            b == (self.phase() == Phase::Transport),
    {
        match self.inner {
            Inner::Transport(_) => true,
            _ => false,
        }
    }

    pub fn is_handshaking(&self) -> (b: bool)
        ensures
            b == (self.phase() == Phase::Handshake),
    {
        match self.inner {
            Inner::Handshake(_) => true,
            _ => false,
        }
    }

    /// The peer's static public key, once known (available from msg2/msg3 onward). Compare this to
    /// the peer's announced X25519 key to bind the encrypted channel to its signed identity.
    pub fn remote_static(&self) -> (r: Option<[u8; 32]>)
        ensures
            self.phase() == Phase::Poisoned ==> r is None,
    {
        let rs = match &self.inner {
            Inner::Handshake(hs) => handshake_remote_static(hs),
            Inner::Transport(ts) => transport_remote_static(ts),
            Inner::Poisoned => None,
        };
        match rs {
            Some(v) => {
                if v.len() == 32 {
                    Some(crate::bytes::read_array32(v.as_slice(), 0))
                } else {
                    None
                }
            },
            None => None,
        }
    }

    /// Produce the next outbound handshake message. Refused outside the handshake.
    pub fn write_handshake(&mut self) -> (r: Result<Vec<u8>, Error>)
        ensures
            final(self).initiates() == old(self).initiates(),
            old(self).phase() != Phase::Handshake ==> r is Err && final(self).phase() == old(self).phase(),
            r is Ok ==> final(self).phase() != Phase::Poisoned,
            r matches Ok(m) ==> final(self).transcript() == old(self).transcript().push(m@),
            r is Err ==> final(self).transcript() == old(self).transcript(),
            final(self).sealed() == old(self).sealed(),
            final(self).opened() == old(self).opened(),
            final(self).recovered() == old(self).recovered(),
            r matches Err(e) ==> e is Noise,
    {
        let out = match &mut self.inner {
            Inner::Handshake(hs) => handshake_write(hs),
            _ => return Err(Error::Noise("write_handshake after handshake".to_string())),
        };
        match out {
            Ok(buf) => {
                self.maybe_transition()?;
                self.transcript = Ghost(self.transcript@.push(buf@));
                Ok(buf)
            },
            Err(msg) => Err(Error::Noise(msg)),
        }
    }

    /// Consume an inbound handshake message. Refused outside the handshake.
    pub fn read_handshake(&mut self, msg: &[u8]) -> (r: Result<(), Error>)
        ensures
            final(self).initiates() == old(self).initiates(),
            old(self).phase() != Phase::Handshake ==> r is Err && final(self).phase() == old(self).phase()
                && final(self).transcript() == old(self).transcript(),
            old(self).phase() == Phase::Handshake ==> final(self).transcript() == old(self).transcript().push(
                msg@,
            ),
            r is Ok ==> final(self).phase() != Phase::Poisoned,
            final(self).sealed() == old(self).sealed(),
            final(self).opened() == old(self).opened(),
            final(self).recovered() == old(self).recovered(),
            r matches Err(e) ==> e is Noise,
    {
        let out = match &mut self.inner {
            Inner::Handshake(hs) => handshake_read(hs, msg),
            _ => return Err(Error::Noise("read_handshake after handshake".to_string())),
        };
        self.transcript = Ghost(self.transcript@.push(msg@));
        match out {
            Ok(()) => self.maybe_transition(),
            Err(m) => Err(Error::Noise(m)),
        }
    }

    /// Encrypt a plaintext DM (transport mode only). A ciphertext is the plaintext plus its tag.
    pub fn encrypt(&mut self, plaintext: &[u8]) -> (r: Result<Vec<u8>, Error>)
        ensures
            final(self).phase() == old(self).phase(),
            final(self).initiates() == old(self).initiates(),
            old(self).phase() != Phase::Transport ==> r is Err,
            r is Ok ==> r->Ok_0@.len() == plaintext@.len() + TAG_LEN,
            final(self).transcript() == old(self).transcript(),
            final(self).sealed() == (if old(self).phase() == Phase::Transport {
                old(self).sealed().push(plaintext@)
            } else {
                old(self).sealed()
            }),
            final(self).opened() == old(self).opened(),
            final(self).recovered() == old(self).recovered(),
            r matches Err(e) ==> e is Noise,
    {
        match &mut self.inner {
            Inner::Transport(ts) => {
                let out = transport_encrypt(ts, plaintext);
                self.sealed = Ghost(self.sealed@.push(plaintext@));
                match out {
                    Ok(c) => Ok(c),
                    Err(m) => Err(Error::Noise(m)),
                }
            },
            _ => Err(Error::Noise("encrypt before handshake complete".to_string())),
        }
    }

    /// Decrypt a DM ciphertext (transport mode only).
    pub fn decrypt(&mut self, ciphertext: &[u8]) -> (r: Result<Vec<u8>, Error>)
        ensures
            final(self).phase() == old(self).phase(),
            final(self).initiates() == old(self).initiates(),
            old(self).phase() != Phase::Transport ==> r is Err,
            r is Ok ==> r->Ok_0@.len() + TAG_LEN == ciphertext@.len(),
            final(self).transcript() == old(self).transcript(),
            final(self).sealed() == old(self).sealed(),
            final(self).opened() == (if old(self).phase() == Phase::Transport {
                old(self).opened().push(ciphertext@)
            } else {
                old(self).opened()
            }),
            r matches Ok(p) ==> final(self).recovered() == old(self).recovered().push(p@),
            r is Err ==> final(self).recovered() == old(self).recovered(),
            r matches Err(e) ==> e is Noise,
    {
        match &mut self.inner {
            Inner::Transport(ts) => {
                let out = transport_decrypt(ts, ciphertext);
                self.opened = Ghost(self.opened@.push(ciphertext@));
                match out {
                    Ok(p) => {
                        self.recovered = Ghost(self.recovered@.push(p@));
                        Ok(p)
                    },
                    Err(m) => Err(Error::Noise(m)),
                }
            },
            _ => Err(Error::Noise("decrypt before handshake complete".to_string())),
        }
    }

    /// Once the handshake has finished, move to transport mode. A failed move leaves the session
    /// poisoned.
    fn maybe_transition(&mut self) -> (r: Result<(), Error>)
        requires
            old(self).phase() == Phase::Handshake,
        ensures
            final(self).initiates() == old(self).initiates(),
            r is Ok ==> final(self).phase() == Phase::Handshake || final(self).phase() == Phase::Transport,
            r is Err ==> final(self).phase() == Phase::Poisoned,
            final(self).transcript() == old(self).transcript(),
            final(self).sealed() == old(self).sealed(),
            final(self).opened() == old(self).opened(),
            final(self).recovered() == old(self).recovered(),
            r matches Err(e) ==> e is Noise,
    {
        let finished = match &self.inner {
            Inner::Handshake(hs) => handshake_finished(hs),
            _ => false,
        };
        if finished {
            let mut taken = Inner::Poisoned;
            std::mem::swap(&mut taken, &mut self.inner);
            match taken {
                Inner::Handshake(hs) => match into_transport(*hs) {
                    Ok(ts) => {
                        self.inner = Inner::Transport(Box::new(ts));
                    },
                    Err(m) => return Err(Error::Noise(m)),
                },
                other => {
                    self.inner = other;
                },
            }
        }
        Ok(())
    }
}

} // verus!
