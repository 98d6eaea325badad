//! MSI routing table of a partition: which GSI delivers which message.
use std::collections::HashMap;
use vstd::std_specs::iter::IteratorSpec;
use vstd::prelude::*;

verus! {

broadcast use vstd::std_specs::hash::group_hash_axioms;

/// Number of GSIs a partition can route.
pub const MSHV_MAX_MSI_ROUTES: u32 = 4096;

/// One MSI route: the message that an interrupt on `gsi` delivers.
#[derive(Debug, Eq, PartialEq, Copy, Clone, Structural)]
pub struct MsiRoute {
    pub gsi: u32,
    pub address_hi: u32,
    pub address_lo: u32,
    pub data: u32,
    pub devid: u32,
}

/// The route for `gsi` that delivers `data` at address `addr`.
pub open spec fn msi_route(gsi: u32, addr: u64, data: u32, devid: u32) -> MsiRoute {
    MsiRoute {
        gsi,
        address_hi: (addr / 0x1_0000_0000) as u32,
        address_lo: (addr % 0x1_0000_0000) as u32,
        data,
        devid,
    }
}

/// Two routes deliver the same message to the same address.
pub open spec fn same_message(a: MsiRoute, b: MsiRoute) -> bool {
    &&& a.data == b.data
    &&& a.address_hi == b.address_hi
    &&& a.address_lo == b.address_lo
}

/// Every route is filed under its own GSI, and GSIs stay below the limit.
pub open spec fn routes_wf(routes: Map<u32, MsiRoute>) -> bool {
    forall|g: u32| #[trigger]
        routes.contains_key(g) ==> g < MSHV_MAX_MSI_ROUTES && routes[g].gsi == g
}

/// `v` lists every route of `routes` exactly once.
pub open spec fn lists_routes(v: Seq<MsiRoute>, routes: Map<u32, MsiRoute>) -> bool {
    &&& v.len() == routes.len()
    &&& v.no_duplicates()
    &&& forall|i: int| 0 <= i < v.len() ==> #[trigger] routes.contains_key(v[i].gsi) && routes[v[i].gsi] == v[i]
    &&& forall|g: u32| #[trigger] routes.contains_key(g) ==> v.contains(routes[g])
}

/// The address halves that a route keeps give back the address it was made from.
pub proof fn lemma_msi_address_roundtrip(gsi: u32, addr: u64, data: u32, devid: u32)
    ensures
        msi_route(gsi, addr, data, devid).address_hi as int * 0x1_0000_0000 + msi_route(
            gsi,
            addr,
            data,
            devid,
        ).address_lo as int == addr as int,
{
    let hi = addr / 0x1_0000_0000;
    let lo = addr % 0x1_0000_0000;
    assert(hi < 0x1_0000_0000);
    assert(hi * 0x1_0000_0000 + lo == addr);
}

/// The routes and the change flag after `gsi` is routed to deliver `data` at `addr`:
/// a route that already delivers that message to that address stays, anything else
/// is replaced and the table counts as changed.
pub open spec fn after_set_route(
    routes: Map<u32, MsiRoute>,
    updated: bool,
    gsi: u32,
    addr: u64,
    data: u32,
    devid: u32,
) -> (Map<u32, MsiRoute>, bool) {
    let route = msi_route(gsi, addr, data, devid);
    if routes.contains_key(gsi) && same_message(routes[gsi], route) {
        (routes, updated)
    } else {
        (routes.insert(gsi, route), true)
    }
}

/// The full 64-bit address a route delivers its message to.
pub open spec fn route_address(r: MsiRoute) -> int {
    r.address_hi as int * 0x1_0000_0000 + r.address_lo as int
}

/// After `gsi` is routed to deliver `data` at `addr`, the route filed under `gsi` is
/// for `gsi` and delivers `data` at `addr`; every other GSI keeps its route; and when
/// `gsi` had no route, or one with another address or data, the table counts as
/// changed.
pub proof fn lemma_set_route_delivers(
    routes: Map<u32, MsiRoute>,
    updated: bool,
    gsi: u32,
    addr: u64,
    data: u32,
    devid: u32,
)
    ensures
        ({
            let (after, changed) = after_set_route(routes, updated, gsi, addr, data, devid);
            &&& after.contains_key(gsi)
            &&& after[gsi].data == data
            &&& route_address(after[gsi]) == addr as int
            &&& (!routes.contains_key(gsi) || routes[gsi].data != data || route_address(routes[gsi])
                != addr as int) ==> changed && after[gsi].gsi == gsi && after[gsi].devid == devid
            &&& updated ==> changed
            &&& forall|g: u32| g != gsi ==> (#[trigger] after.contains_key(g)) == routes.contains_key(g)
            &&& forall|g: u32| g != gsi && routes.contains_key(g) ==> #[trigger] after[g] == routes[g]
        }),
{
    lemma_msi_address_roundtrip(gsi, addr, data, devid);
    let route = msi_route(gsi, addr, data, devid);
    if routes.contains_key(gsi) && same_message(routes[gsi], route) {
        assert(route_address(routes[gsi]) == route_address(route));
    }
}

/// Routing a GSI to the same message twice is the same as routing it once.
pub proof fn lemma_set_route_twice(
    routes: Map<u32, MsiRoute>,
    updated: bool,
    gsi: u32,
    addr: u64,
    data: u32,
    devid: u32,
)
    ensures
        ({
            let once = after_set_route(routes, updated, gsi, addr, data, devid);
            after_set_route(once.0, once.1, gsi, addr, data, devid) == once
        }),
{
}

/// Removing a GSI that was just routed while free gives back the table as it was.
pub proof fn lemma_remove_added_route(routes: Map<u32, MsiRoute>, gsi: u32, route: MsiRoute)
    requires
        !routes.contains_key(gsi),
    ensures
        routes.insert(gsi, route).remove(gsi) == routes,
{
    assert(routes.insert(gsi, route).remove(gsi) =~= routes);
}

/// The routing table and whether it changed since it was last installed.
pub struct MSIControl {
    gsi_routes: HashMap<u32, MsiRoute>,
    max_gsi: u32,
    updated: bool,
}

impl MSIControl {
    #[verifier::type_invariant]
    spec fn inv(self) -> bool {
        &&& self.max_gsi == MSHV_MAX_MSI_ROUTES
        &&& routes_wf(self.gsi_routes@)
    }

    /// The routes, by GSI.
    pub closed spec fn routes(self) -> Map<u32, MsiRoute> {
        self.gsi_routes@
    }

    /// The table changed since it was last handed out for installation.
    pub closed spec fn updated(self) -> bool {
        self.updated
    }

    pub fn new() -> (m: Self)
        ensures
            m.routes() == Map::<u32, MsiRoute>::empty(),
            !m.updated(),
    {
        MSIControl { gsi_routes: HashMap::new(), max_gsi: MSHV_MAX_MSI_ROUTES, updated: false }
    }
    /// Routes `gsi` to deliver `data` at address `addr`. A route that already delivers
    /// the same message to the same address is left as it is.
    pub fn set_msi_routing(&mut self, gsi: u32, addr: u64, data: u32, devid: u32)
        requires
            gsi < MSHV_MAX_MSI_ROUTES,
        ensures
            (final(self).routes(), final(self).updated()) == after_set_route(
                old(self).routes(),
                old(self).updated(),
                gsi,
                addr,
                data,
                devid,
            ),
            final(self).routes().contains_key(gsi),
            final(self).routes()[gsi].data == data,
            route_address(final(self).routes()[gsi]) == addr as int,
            old(self).routes().contains_key(gsi) && (old(self).routes()[gsi].data != data
                || route_address(old(self).routes()[gsi]) != addr as int) ==> final(self).updated(),
            !old(self).routes().contains_key(gsi) ==> final(self).updated(),
            forall|g: u32|
                g != gsi ==> (#[trigger] final(self).routes().contains_key(g)) == old(
                    self,
                ).routes().contains_key(g),
    {
        proof {
            lemma_set_route_delivers(old(self).routes(), old(self).updated(), gsi, addr, data, devid);
        }
        proof {
            use_type_invariant(&*self);
        }
        let high_addr = (addr >> 32u64) as u32;
        let low_addr = addr as u32;
        proof {
            assert(high_addr == addr / 0x1_0000_0000) by (bit_vector)
                requires
                    high_addr == (addr >> 32u64) as u32,
            ;
            assert(low_addr == addr % 0x1_0000_0000) by (bit_vector)
                requires
                    low_addr == addr as u32,
            ;
        }
        let route = MsiRoute { gsi, address_hi: high_addr, address_lo: low_addr, data, devid };
        if let Some(r) = self.gsi_routes.get(&gsi) {
            if r.data == data && r.address_hi == high_addr && r.address_lo == low_addr {
                return ;
            }
        }
        let mut routes = HashMap::new();
        std::mem::swap(&mut routes, &mut self.gsi_routes);
        routes.insert(gsi, route);
        self.gsi_routes = routes;
        self.updated = true;
    }

    /// Routes the lowest free GSI to deliver `data` at address `addr` and returns it;
    /// `None` when every GSI is taken.
    pub fn add_msi_routing(&mut self, addr: u64, data: u32, devid: u32) -> (ret: Option<u32>)
        ensures
            match ret {
                Some(g) => {
                    &&& g < MSHV_MAX_MSI_ROUTES
                    &&& !old(self).routes().contains_key(g)
                    &&& forall|h: u32| h < g ==> #[trigger] old(self).routes().contains_key(h)
                    &&& final(self).routes() == old(self).routes().insert(
                        g,
                        msi_route(g, addr, data, devid),
                    )
                    &&& final(self).updated()
                },
                None => {
                    &&& forall|h: u32|
                        h < MSHV_MAX_MSI_ROUTES ==> #[trigger] old(self).routes().contains_key(h)
                    &&& final(self).routes() == old(self).routes()
                    &&& final(self).updated() == old(self).updated()
                },
            },
    {
        proof {
            use_type_invariant(&*self);
        }
        let mut gsi: u32 = 0;
        while gsi < self.max_gsi
            invariant
                self.max_gsi == MSHV_MAX_MSI_ROUTES,
                self.gsi_routes@ == old(self).gsi_routes@,
                self.updated == old(self).updated,
                gsi <= self.max_gsi,
                forall|h: u32| h < gsi ==> #[trigger] self.gsi_routes@.contains_key(h),
            decreases self.max_gsi - gsi,
        {
            if !self.gsi_routes.contains_key(&gsi) {
                self.set_msi_routing(gsi, addr, data, devid);
                return Some(gsi);
            }
            gsi = gsi + 1;
        }
        None
    }

    /// Drops the route of `gsi`, if any.
    pub fn remove_gsi(&mut self, gsi: u32)
        ensures
            final(self).routes() == old(self).routes().remove(gsi),
            final(self).updated(),
    {
        proof {
            use_type_invariant(&*self);
        }
        let mut routes = HashMap::new();
        std::mem::swap(&mut routes, &mut self.gsi_routes);
        routes.remove(&gsi);
        self.gsi_routes = routes;
        self.updated = true;
    }

    /// Hands out every route for installation when the table changed since it was last
    /// installed (in no particular order); `None` when it did not change.
    pub fn enable_msi_routing(&mut self) -> (ret: Option<Vec<MsiRoute>>)
        ensures
            final(self).routes() == old(self).routes(),
            !final(self).updated(),
            match ret {
                Some(v) => old(self).updated() && lists_routes(v@, old(self).routes()),
                None => !old(self).updated(),
            },
    {
        proof {
            use_type_invariant(&*self);
        }
        let mut ret = None;
        if self.updated {
            let mut routes: Vec<MsiRoute> = Vec::new();
            let ghost m = self.gsi_routes@;
            let iter = self.gsi_routes.iter();
            let ghost pairs = iter.remaining();
            assert(pairs.no_duplicates());
            for kv in it: iter
                invariant
                    it.seq() == pairs,
                    routes@.len() == it.index(),
                    forall|i: int| 0 <= i < it.index() ==> routes@[i] == *pairs[i].1,
            {
                let (_, v) = kv;
                routes.push(*v);
            }
            proof {
                assert(pairs.len() == m.dom().len());
                assert forall|i: int, j: int| 0 <= i < j < routes@.len() implies routes@[i]
                    != routes@[j] by {
                    assert(m.contains_key(*pairs[i].0) && m[*pairs[i].0] == *pairs[i].1);
                    assert(m.contains_key(*pairs[j].0) && m[*pairs[j].0] == *pairs[j].1);
                    if routes@[i] == routes@[j] {
                        assert(*pairs[i].0 == *pairs[j].0);
                        assert(pairs[i] == pairs[j]);
                    }
                }
                assert forall|i: int| 0 <= i < routes@.len() implies #[trigger] m.contains_key(
                    routes@[i].gsi,
                ) && m[routes@[i].gsi] == routes@[i] by {
                    assert(m.contains_key(*pairs[i].0) && m[*pairs[i].0] == *pairs[i].1);
                }
                assert forall|g: u32| #[trigger] m.contains_key(g) implies routes@.contains(m[g]) by {
                    assert(pairs.contains((&g, &m[g])));
                    let i = choose|i: int| 0 <= i < pairs.len() && pairs[i] == (&g, &m[g]);
                    assert(routes@[i] == m[g]);
                }
            }
            ret = Some(routes);
        }
        self.updated = false;
        ret
    }

    /// `gsi` is routed.
    pub fn contains_gsi(&self, gsi: u32) -> (ret: bool)
        ensures
            ret == self.routes().contains_key(gsi),
    {
        self.gsi_routes.contains_key(&gsi)
    }

    /// Registers an event on `gsi` through `register`; `gsi` must be routed.
    pub fn register_irqfd<F: FnOnce(u32)>(&self, register: F, gsi: u32)
        requires
            register.requires((gsi,)),
            self.routes().contains_key(gsi),
        ensures
            call_ensures(register, (gsi,), ()),
    {
        register(gsi);
    }

    /// Registers an event with a resample event on `gsi` through `register`; `gsi` must
    /// be routed.
    pub fn register_irqfd_with_resample<F: FnOnce(u32)>(&self, register: F, gsi: u32)
        requires
            register.requires((gsi,)),
            self.routes().contains_key(gsi),
        ensures
            call_ensures(register, (gsi,), ()),
    {
        register(gsi);
    }

    /// Withdraws the event registered on `gsi` through `unregister`.
    pub fn unregister_irqfd<F: FnOnce(u32)>(&self, gsi: u32, unregister: F)
        requires
            unregister.requires((gsi,)),
        ensures
            call_ensures(unregister, (gsi,), ()),
    {
        unregister(gsi);
    }
}

} // verus!
