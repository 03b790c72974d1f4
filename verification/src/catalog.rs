use vstd::prelude::*;

verus! {

/// What the catalog knows of a route.
#[derive(Clone, Copy, Debug, PartialEq, Eq, Structural)]
pub struct RouteProfile {
    pub route_id: u16,
    pub risk_seed: u32,
    pub control_zone: u8,
}

/// What the catalog knows of a signal.
#[derive(Clone, Copy, Debug, PartialEq, Eq, Structural)]
pub struct SignalProfile {
    pub signal_id: u16,
    pub bias: u32,
}

/// What the catalog knows of the interlocking on a route.
#[derive(Clone, Copy, Debug, PartialEq, Eq, Structural)]
pub struct InterlockProfile {
    pub route_id: u16,
    pub base_pressure: u32,
}

/// Reference data on routes, signals and interlocks that decoding and analysis
/// consult. An empty catalog knows nothing.
#[derive(Clone, Debug)]
pub struct Catalog {
    pub routes: Vec<RouteProfile>,
    pub signals: Vec<SignalProfile>,
    pub interlocks: Vec<InterlockProfile>,
}

/// The tables of a catalog.
pub ghost struct CatalogModel {
    pub routes: Seq<RouteProfile>,
    pub signals: Seq<SignalProfile>,
    pub interlocks: Seq<InterlockProfile>,
}

/// The catalog that knows nothing.
pub open spec fn empty_catalog() -> CatalogModel {
    CatalogModel { routes: seq![], signals: seq![], interlocks: seq![] }
}

impl View for Catalog {
    type V = CatalogModel;

    open spec fn view(&self) -> CatalogModel {
        CatalogModel {
            routes: self.routes@,
            signals: self.signals@,
            interlocks: self.interlocks@,
        }
    }
}

/// The first profile of `s` for the route `id`.
pub open spec fn route_in(s: Seq<RouteProfile>, id: u16) -> Option<RouteProfile>
    decreases s.len(),
{
    if s.len() == 0 {
        None
    } else if s[0].route_id == id {
        Some(s[0])
    } else {
        route_in(s.drop_first(), id)
    }
}

/// The bias of the first profile of `s` for the signal `id`, or 0.
pub open spec fn signal_bias_in(s: Seq<SignalProfile>, id: u16) -> u32
    decreases s.len(),
{
    if s.len() == 0 {
        0
    } else if s[0].signal_id == id {
        s[0].bias
    } else {
        signal_bias_in(s.drop_first(), id)
    }
}

/// The interlock pressure of a route with the given plan score: the base pressure of
/// the first interlock profile of the route plus the top half of the score, wrapping,
/// or 0 where the route has no profile.
pub open spec fn interlock_pressure_in(s: Seq<InterlockProfile>, id: u16, score: u32) -> u32
    decreases s.len(),
{
    if s.len() == 0 {
        0
    } else if s[0].route_id == id {
        s[0].base_pressure.wrapping_add(score >> 16u32)
    } else {
        interlock_pressure_in(s.drop_first(), id, score)
    }
}

impl Catalog {
    /// The catalog that knows nothing.
    pub fn new() -> (c: Self)
        ensures
            c@ == empty_catalog(),
    {
        let c = Catalog { routes: Vec::new(), signals: Vec::new(), interlocks: Vec::new() };
        assert(c@.routes =~= empty_catalog().routes);
        assert(c@.signals =~= empty_catalog().signals);
        assert(c@.interlocks =~= empty_catalog().interlocks);
        c
    }

    pub fn find_route(&self, route_id: u16) -> (r: Option<RouteProfile>)
        ensures
            r == route_in(self.routes@, route_id),
    {
        let mut i: usize = 0;
        assert(self.routes@.subrange(0, self.routes@.len() as int) =~= self.routes@);
        while i < self.routes.len()
            invariant
                i <= self.routes@.len(),
                route_in(self.routes@, route_id) == route_in(
                    self.routes@.subrange(i as int, self.routes@.len() as int),
                    route_id,
                ),
            decreases self.routes.len() - i,
        {
            let ghost rest = self.routes@.subrange(i as int, self.routes@.len() as int);
            assert(rest.drop_first() =~= self.routes@.subrange(i + 1, self.routes@.len() as int));
            if self.routes[i].route_id == route_id {
                return Some(self.routes[i]);
            }
            i = i + 1;
        }
        None
    }

    pub fn signal_bias(&self, signal_id: u16) -> (b: u32)
        ensures
            b == signal_bias_in(self.signals@, signal_id),
    {
        let mut i: usize = 0;
        assert(self.signals@.subrange(0, self.signals@.len() as int) =~= self.signals@);
        while i < self.signals.len()
            invariant
                i <= self.signals@.len(),
                signal_bias_in(self.signals@, signal_id) == signal_bias_in(
                    self.signals@.subrange(i as int, self.signals@.len() as int),
                    signal_id,
                ),
            decreases self.signals.len() - i,
        {
            let ghost rest = self.signals@.subrange(i as int, self.signals@.len() as int);
            assert(rest.drop_first() =~= self.signals@.subrange(i + 1, self.signals@.len() as int));
            if self.signals[i].signal_id == signal_id {
                return self.signals[i].bias;
            }
            i = i + 1;
        }
        0
    }

    pub fn interlock_pressure(&self, route_id: u16, score: u32) -> (p: u32)
        ensures
            p == interlock_pressure_in(self.interlocks@, route_id, score),
    {
        let mut i: usize = 0;
        assert(self.interlocks@.subrange(0, self.interlocks@.len() as int) =~= self.interlocks@);
        while i < self.interlocks.len()
            invariant
                i <= self.interlocks@.len(),
                interlock_pressure_in(self.interlocks@, route_id, score) == interlock_pressure_in(
                    self.interlocks@.subrange(i as int, self.interlocks@.len() as int),
                    route_id,
                    score,
                ),
            decreases self.interlocks.len() - i,
        {
            let ghost rest = self.interlocks@.subrange(i as int, self.interlocks@.len() as int);
            assert(rest.drop_first() =~= self.interlocks@.subrange(
                i + 1,
                self.interlocks@.len() as int,
            ));
            if self.interlocks[i].route_id == route_id {
                return self.interlocks[i].base_pressure.wrapping_add(score >> 16);
            }
            i = i + 1;
        }
        0
    }
}

} // verus!
