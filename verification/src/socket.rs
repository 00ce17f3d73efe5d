//! The typed socket façade: one trait over the four patterns, and a
//! builder that collects options and finalises into a bound or connected
//! socket.
use vstd::prelude::*;

use core::marker::PhantomData;

use crate::errors::NBMQError;
use crate::opt::SockOpt;
use crate::transport::Datagram;

verus! {

/// What every socket pattern offers: construction bound or connected,
/// multipart send and receive, one externally driven scheduling step, and
/// the peer count. Every operation keeps the pattern's invariant.
pub trait AsSocket: Sized {
    /// The pattern's well-formedness.
    spec fn inv(&self) -> bool;

    /// The options the socket was built with.
    spec fn opt_spec(&self) -> SockOpt;

    fn bind(opt: SockOpt, seed: u64, now: u64) -> (r: Self)
        ensures
            r.inv(),
            r.opt_spec() == opt,
    ;

    fn connect(opt: SockOpt, peer_addr: u64, seed: u64, now: u64) -> (r: (Self, Datagram))
        ensures
            r.0.inv(),
            r.0.opt_spec() == opt,
    ;

    fn send(&mut self, data: &Vec<Vec<u8>>) -> (r: Result<(), NBMQError>)
        requires
            old(self).inv(),
        ensures
            final(self).inv(),
            final(self).opt_spec() == old(self).opt_spec(),
    ;

    fn recv(&mut self, now: u64) -> (r: Result<Vec<Vec<u8>>, NBMQError>)
        requires
            old(self).inv(),
        ensures
            final(self).inv(),
            final(self).opt_spec() == old(self).opt_spec(),
    ;

    fn tick(&mut self, incoming: &Vec<Datagram>, now: u64) -> (r: Result<Vec<Datagram>, NBMQError>)
        requires
            old(self).inv(),
        ensures
            final(self).inv(),
            final(self).opt_spec() == old(self).opt_spec(),
    ;

    fn peers(&self) -> usize
        requires
            self.inv(),
    ;
}

impl AsSocket for crate::dealer::Dealer {
    open spec fn inv(&self) -> bool {
        self.wf()
    }

    open spec fn opt_spec(&self) -> SockOpt {
        self.opt
    }

    fn bind(opt: SockOpt, seed: u64, now: u64) -> (r: Self) {
        crate::dealer::Dealer::bind(opt, seed, now)
    }

    fn connect(opt: SockOpt, peer_addr: u64, seed: u64, now: u64) -> (r: (Self, Datagram)) {
        crate::dealer::Dealer::connect(opt, peer_addr, seed, now)
    }

    fn send(&mut self, data: &Vec<Vec<u8>>) -> (r: Result<(), NBMQError>) {
        crate::dealer::Dealer::send(self, data)
    }

    fn recv(&mut self, now: u64) -> (r: Result<Vec<Vec<u8>>, NBMQError>) {
        crate::dealer::Dealer::recv(self, now)
    }

    fn tick(&mut self, incoming: &Vec<Datagram>, now: u64) -> (r: Result<
        Vec<Datagram>,
        NBMQError,
    >) {
        crate::dealer::Dealer::tick(self, incoming, now)
    }

    fn peers(&self) -> usize {
        crate::dealer::Dealer::peers(self)
    }
}

impl AsSocket for crate::radio::Radio {
    open spec fn inv(&self) -> bool {
        self.wf()
    }

    open spec fn opt_spec(&self) -> SockOpt {
        self.opt
    }

    fn bind(opt: SockOpt, seed: u64, now: u64) -> (r: Self) {
        crate::radio::Radio::bind(opt, seed, now)
    }

    fn connect(opt: SockOpt, peer_addr: u64, seed: u64, now: u64) -> (r: (Self, Datagram)) {
        crate::radio::Radio::connect(opt, peer_addr, seed, now)
    }

    fn send(&mut self, data: &Vec<Vec<u8>>) -> (r: Result<(), NBMQError>) {
        crate::radio::Radio::send(self, data)
    }

    fn recv(&mut self, now: u64) -> (r: Result<Vec<Vec<u8>>, NBMQError>) {
        crate::radio::Radio::recv(self, now)
    }

    fn tick(&mut self, incoming: &Vec<Datagram>, now: u64) -> (r: Result<
        Vec<Datagram>,
        NBMQError,
    >) {
        crate::radio::Radio::tick(self, incoming, now)
    }

    fn peers(&self) -> usize {
        crate::radio::Radio::peers(self)
    }
}

impl AsSocket for crate::dish::Dish {
    open spec fn inv(&self) -> bool {
        self.wf()
    }

    open spec fn opt_spec(&self) -> SockOpt {
        self.opt
    }

    fn bind(opt: SockOpt, seed: u64, now: u64) -> (r: Self) {
        crate::dish::Dish::bind(opt, seed, now)
    }

    fn connect(opt: SockOpt, peer_addr: u64, seed: u64, now: u64) -> (r: (Self, Datagram)) {
        crate::dish::Dish::connect(opt, peer_addr, seed, now)
    }

    fn send(&mut self, data: &Vec<Vec<u8>>) -> (r: Result<(), NBMQError>) {
        crate::dish::Dish::send(self, data)
    }

    fn recv(&mut self, now: u64) -> (r: Result<Vec<Vec<u8>>, NBMQError>) {
        crate::dish::Dish::recv(self, now)
    }

    fn tick(&mut self, incoming: &Vec<Datagram>, now: u64) -> (r: Result<
        Vec<Datagram>,
        NBMQError,
    >) {
        crate::dish::Dish::tick(self, incoming, now)
    }

    fn peers(&self) -> usize {
        crate::dish::Dish::peers(self)
    }
}

impl AsSocket for crate::safe_dealer::SafeDealer {
    open spec fn inv(&self) -> bool {
        self.wf()
    }

    open spec fn opt_spec(&self) -> SockOpt {
        self.opt
    }

    fn bind(opt: SockOpt, seed: u64, now: u64) -> (r: Self) {
        crate::safe_dealer::SafeDealer::bind(opt, seed, now)
    }

    fn connect(opt: SockOpt, peer_addr: u64, seed: u64, now: u64) -> (r: (Self, Datagram)) {
        crate::safe_dealer::SafeDealer::connect(opt, peer_addr, seed, now)
    }

    fn send(&mut self, data: &Vec<Vec<u8>>) -> (r: Result<(), NBMQError>) {
        crate::safe_dealer::SafeDealer::send(self, data)
    }

    fn recv(&mut self, now: u64) -> (r: Result<Vec<Vec<u8>>, NBMQError>) {
        crate::safe_dealer::SafeDealer::recv(self, now)
    }

    fn tick(&mut self, incoming: &Vec<Datagram>, now: u64) -> (r: Result<
        Vec<Datagram>,
        NBMQError,
    >) {
        crate::safe_dealer::SafeDealer::tick(self, incoming, now)
    }

    fn peers(&self) -> usize {
        crate::safe_dealer::SafeDealer::peers(self)
    }
}

/// The builder: options accumulate, then `bind` or `connect` finalises
/// into the chosen pattern. Intervals and TTLs are milliseconds.
pub struct Socket<T> {
    pub opt: SockOpt,
    pub _pattern: PhantomData<T>,
}

impl<T: AsSocket> Socket<T> {
    pub fn new() -> (r: Socket<T>)
        ensures
            r.opt == SockOpt::spec_default(),
    {
        Socket { opt: SockOpt::default(), _pattern: PhantomData }
    }

    pub fn set_send_hwm(self, send_hwm: usize) -> (r: Self)
        ensures
            r.opt == (SockOpt { send_hwm, ..self.opt }),
    {
        Socket { opt: SockOpt { send_hwm, ..self.opt }, _pattern: PhantomData }
    }

    pub fn set_recv_hwm(self, recv_hwm: usize) -> (r: Self)
        ensures
            r.opt == (SockOpt { recv_hwm, ..self.opt }),
    {
        Socket { opt: SockOpt { recv_hwm, ..self.opt }, _pattern: PhantomData }
    }

    pub fn set_safe_resent_limit(self, safe_resend_limit: usize) -> (r: Self)
        ensures
            r.opt == (SockOpt { safe_resend_limit, ..self.opt }),
    {
        Socket { opt: SockOpt { safe_resend_limit, ..self.opt }, _pattern: PhantomData }
    }

    pub fn set_max_tick_send(self, max_tick_send: usize) -> (r: Self)
        ensures
            r.opt == (SockOpt { max_tick_send, ..self.opt }),
    {
        Socket { opt: SockOpt { max_tick_send, ..self.opt }, _pattern: PhantomData }
    }

    pub fn set_uncompleted_message_ttl(self, uncompleted_message_ttl: u64) -> (r: Self)
        ensures
            r.opt == (SockOpt { uncompleted_message_ttl, ..self.opt }),
    {
        Socket { opt: SockOpt { uncompleted_message_ttl, ..self.opt }, _pattern: PhantomData }
    }

    pub fn set_queue_maint_ivl(self, queue_maint_ivl: u64) -> (r: Self)
        ensures
            r.opt == (SockOpt { queue_maint_ivl, ..self.opt }),
    {
        Socket { opt: SockOpt { queue_maint_ivl, ..self.opt }, _pattern: PhantomData }
    }

    pub fn set_peer_heartbeat_ivl(self, peer_heartbeat_ivl: u64) -> (r: Self)
        ensures
            r.opt == (SockOpt { peer_heartbeat_ivl, ..self.opt }),
    {
        Socket { opt: SockOpt { peer_heartbeat_ivl, ..self.opt }, _pattern: PhantomData }
    }

    pub fn set_peer_keepalive(self, peer_keepalive: u64) -> (r: Self)
        ensures
            r.opt == (SockOpt { peer_keepalive, ..self.opt }),
    {
        Socket { opt: SockOpt { peer_keepalive, ..self.opt }, _pattern: PhantomData }
    }

    pub fn set_reconnect_wait(self, reconnect_wait: u64) -> (r: Self)
        ensures
            r.opt == (SockOpt { reconnect_wait, ..self.opt }),
    {
        Socket { opt: SockOpt { reconnect_wait, ..self.opt }, _pattern: PhantomData }
    }

    pub fn set_safe_resend_ivl(self, safe_resend_ivl: u64) -> (r: Self)
        ensures
            r.opt == (SockOpt { safe_resend_ivl, ..self.opt }),
    {
        Socket { opt: SockOpt { safe_resend_ivl, ..self.opt }, _pattern: PhantomData }
    }

    pub fn set_safe_hash_dedup_ttl(self, safe_hash_dedup_ttl: u64) -> (r: Self)
        ensures
            r.opt == (SockOpt { safe_hash_dedup_ttl, ..self.opt }),
    {
        Socket { opt: SockOpt { safe_hash_dedup_ttl, ..self.opt }, _pattern: PhantomData }
    }

    /// Finalises into a bound socket of the chosen pattern, carrying the
    /// accumulated options.
    pub fn bind(self, seed: u64, now: u64) -> (r: T)
        ensures
            r.inv(),
            r.opt_spec() == self.opt,
    {
        T::bind(self.opt, seed, now)
    }

    /// Finalises into a connected socket of the chosen pattern, carrying
    /// the accumulated options, with its opening connect datagram to
    /// transmit.
    pub fn connect(self, peer_addr: u64, seed: u64, now: u64) -> (r: (T, Datagram))
        ensures
            r.0.inv(),
            r.0.opt_spec() == self.opt,
    {
        T::connect(self.opt, peer_addr, seed, now)
    }
}

} // verus!
