use vstd::prelude::*;

verus! {

/// A peer's socket address on the mixnet: none, an individual nym address,
/// or an anonymous sender tag, each kept in its text form.
#[derive(Debug, Clone)]
pub enum SockAddr {
    Null,
    Individual(String),
    Anonymous(String),
}

/// Kind tags of a socket address in its view.
pub open spec fn kind_null() -> u8 {
    0
}

pub open spec fn kind_individual() -> u8 {
    1
}

pub open spec fn kind_anonymous() -> u8 {
    2
}

impl View for SockAddr {
    /// The kind of address and its text.
    type V = (u8, Seq<char>);

    open spec fn view(&self) -> (u8, Seq<char>) {
        match self {
            SockAddr::Null => (kind_null(), Seq::empty()),
            SockAddr::Individual(s) => (kind_individual(), s@),
            SockAddr::Anonymous(s) => (kind_anonymous(), s@),
        }
    }
}

impl SockAddr {
    /// Whether two addresses are the same address.
    pub fn same_as(&self, other: &SockAddr) -> (b: bool)
        ensures
            b == (self@ == other@),
    {
        match (self, other) {
            (SockAddr::Null, SockAddr::Null) => true,
            (SockAddr::Individual(a), SockAddr::Individual(b)) => a.eq(b),
            (SockAddr::Anonymous(a), SockAddr::Anonymous(b)) => a.eq(b),
            _ => false,
        }
    }

    /// A copy of the address.
    pub fn clone_addr(&self) -> (r: SockAddr)
        ensures
            r@ == self@,
    {
        match self {
            SockAddr::Null => SockAddr::Null,
            SockAddr::Individual(s) => SockAddr::Individual(s.clone()),
            SockAddr::Anonymous(s) => SockAddr::Anonymous(s.clone()),
        }
    }

    /// Whether this is an individual nym address.
    pub fn is_individual(&self) -> (b: bool)
        ensures
            b == (self@.0 == kind_individual()),
    {
        matches!(self, SockAddr::Individual(_))
    }

    /// Whether this is an anonymous sender tag.
    pub fn is_anonymous(&self) -> (b: bool)
        ensures
            b == (self@.0 == kind_anonymous()),
    {
        matches!(self, SockAddr::Anonymous(_))
    }

    /// Whether this is the null address.
    pub fn is_null(&self) -> (b: bool)
        ensures
            b == (self@.0 == kind_null()),
    {
        matches!(self, SockAddr::Null)
    }
}

impl Default for SockAddr {
    /// The null address.
    fn default() -> (a: Self)
        ensures
            a@.0 == kind_null(),
    {
        SockAddr::Null
    }
}

/// A peer address with the services it advertises and the time of the last
/// failed connection attempt.
#[derive(Debug, Clone)]
pub struct Address {
    pub address: SockAddr,
    pub services: u32,
    pub last_failed_time: u64,
}

impl View for Address {
    type V = ((u8, Seq<char>), u32, u64);

    open spec fn view(&self) -> ((u8, Seq<char>), u32, u64) {
        (self.address@, self.services, self.last_failed_time)
    }
}

impl Address {
    pub open spec fn is_individual_spec(&self) -> bool {
        self.address@.0 == kind_individual()
    }

    pub open spec fn is_anonymous_spec(&self) -> bool {
        self.address@.0 == kind_anonymous()
    }

    /// An address with the given services and no failed attempt.
    pub fn new(address: SockAddr, services: u32) -> (a: Self)
        ensures
            a.address == address,
            a.services == services,
            a.last_failed_time == 0,
    {
        Address { address, services, last_failed_time: 0 }
    }

    /// Whether the socket address is an individual nym address.
    pub fn is_individual(&self) -> (b: bool)
        ensures
            b == (self.address@.0 == kind_individual()),
    {
        self.address.is_individual()
    }

    /// Whether the socket address is an anonymous sender tag.
    pub fn is_anonymous(&self) -> (b: bool)
        ensures
            b == (self.address@.0 == kind_anonymous()),
    {
        self.address.is_anonymous()
    }

    /// Whether the socket address is null.
    pub fn is_null(&self) -> (b: bool)
        ensures
            b == (self.address@.0 == kind_null()),
    {
        self.address.is_null()
    }

    /// Whether two addresses agree in every field.
    pub fn same_as(&self, other: &Address) -> (b: bool)
        ensures
            b == (self@ == other@),
    {
        self.address.same_as(&other.address) && self.services == other.services
            && self.last_failed_time == other.last_failed_time
    }

    /// A copy of the address.
    pub fn clone_addr(&self) -> (r: Address)
        ensures
            r@ == self@,
    {
        Address {
            address: self.address.clone_addr(),
            services: self.services,
            last_failed_time: self.last_failed_time,
        }
    }
}

impl Default for Address {
    /// The null address with no services.
    fn default() -> (a: Self)
        ensures
            a@ == ((kind_null(), Seq::<char>::empty()), 0u32, 0u64),
    {
        Address { address: SockAddr::Null, services: 0, last_failed_time: 0 }
    }
}

impl From<SockAddr> for Address {
    /// The address with no services.
    fn from(addr: SockAddr) -> (a: Self) {
        Address::new(addr, 0)
    }
}

impl vstd::std_specs::convert::FromSpecImpl<SockAddr> for Address {
    open spec fn obeys_from_spec() -> bool {
        true
    }

    open spec fn from_spec(v: SockAddr) -> Address {
        Address { address: v, services: 0, last_failed_time: 0 }
    }
}

} // verus!
