use vstd::prelude::*;

verus! {

/// Shortest update period of animated textures, in frames: every frame.
pub const ANIMATIONS_UPDATE_PERIOD_MIN: u32 = 1;

/// Longest update period of animated textures, in frames.
pub const ANIMATIONS_UPDATE_PERIOD_MAX: u32 = 16;

/// Threshold of the bin search: a bin holding this many texels or more is never picked.
pub const BIN_SEARCH_START: u32 = 0x4000_0000;

/// Settings of the materials processor.
#[derive(Copy, Clone, PartialEq, Eq, Structural)]
pub struct MapMaterialsProcessorConfig {
    /// Update period in frames. If one - update all animated textures each frame.
    pub animated_textures_update_period: u32,
    /// If non-zero - no more than this many animated texels are updated per frame.
    pub animated_textures_update_texels_limit: u32,
}

impl Default for MapMaterialsProcessorConfig {
    fn default() -> (r: Self)
        ensures
            r.animated_textures_update_period == 0,
            r.animated_textures_update_texels_limit == 0,
    {
        MapMaterialsProcessorConfig { animated_textures_update_period: 0, animated_textures_update_texels_limit: 0 }
    }
}

/// Update period taken when the settings name none.
pub fn animated_textures_update_period_default() -> (r: u32)
    ensures
        r == 1,
{
    1
}

/// Texels counted for the texture whose generative effect has `c`; none without an effect.
pub open spec fn texels_of(c: Option<u32>) -> int {
    match c {
        Some(n) => n as int,
        None => 0,
    }
}

/// Texels of the animated textures among the first `t`.
pub open spec fn total_texels(counts: Seq<Option<u32>>, t: int) -> int
    decreases t,
{
    if t <= 0 {
        0
    } else {
        total_texels(counts, t - 1) + texels_of(counts[t - 1])
    }
}

/// Texels of the animated textures among the first `t` that are updated in frames of order `b`.
pub open spec fn bin_total(counts: Seq<Option<u32>>, orders: Seq<u32>, t: int, b: int) -> int
    decreases t,
{
    if t <= 0 {
        0
    } else {
        bin_total(counts, orders, t - 1, b) + if orders[t - 1] == b {
            texels_of(counts[t - 1])
        } else {
            0
        }
    }
}

/// `r` is the bin picked for texture `t` among `period` bins: the first of the bins with the fewest
/// texels so far; bin 0 where every bin already holds `BIN_SEARCH_START` texels or more.
pub open spec fn is_best_bin(counts: Seq<Option<u32>>, orders: Seq<u32>, t: int, period: int, r: int) -> bool {
    if forall|i: int| 0 <= i < period ==> #[trigger] bin_total(counts, orders, t, i) >= BIN_SEARCH_START {
        r == 0
    } else {
        &&& 0 <= r < period
        &&& bin_total(counts, orders, t, r) < BIN_SEARCH_START
        &&& forall|i: int| 0 <= i < period ==> bin_total(counts, orders, t, r) <= #[trigger] bin_total(counts, orders, t, i)
        &&& forall|i: int| 0 <= i < r ==> bin_total(counts, orders, t, r) < #[trigger] bin_total(counts, orders, t, i)
    }
}

/// `orders` is the update order computed for `period` from the previous `old_orders`: with a period of
/// one every texture is updated every frame (order 0); otherwise each animated texture, in turn, goes to
/// the best bin, and the others keep their order.
pub open spec fn orders_scheduled(period: u32, counts: Seq<Option<u32>>, old_orders: Seq<u32>, orders: Seq<u32>) -> bool {
    &&& orders.len() == old_orders.len()
    &&& if period == ANIMATIONS_UPDATE_PERIOD_MIN {
        forall|t: int| 0 <= t < orders.len() ==> #[trigger] orders[t] == 0
    } else {
        &&& forall|t: int| 0 <= t < orders.len() && counts[t] is None ==> #[trigger] orders[t] == old_orders[t]
        &&& forall|t: int|
            0 <= t < orders.len() && counts[t] is Some ==> is_best_bin(counts, orders, t, period as int, #[trigger] orders[t] as int)
    }
}

/// No texture has a generative effect.
pub open spec fn none_animated(counts: Seq<Option<u32>>) -> bool {
    forall|t: int| 0 <= t < counts.len() ==> #[trigger] counts[t] is None
}

/// The update period that the texel limit asks for: as many frames as the limit goes into the animated
/// texels, within the period bounds; one without a limit.
pub open spec fn dynamic_update_period(num_animated_texels: u32, limit: u32) -> u32 {
    if limit == 0 {
        1
    } else {
        let q = num_animated_texels / limit;
        if q < ANIMATIONS_UPDATE_PERIOD_MIN {
            ANIMATIONS_UPDATE_PERIOD_MIN
        } else if q > ANIMATIONS_UPDATE_PERIOD_MAX {
            ANIMATIONS_UPDATE_PERIOD_MAX
        } else {
            q
        }
    }
}

/// The update period used: the greater of the configured one and the one the texel limit asks for.
pub open spec fn update_period(config: MapMaterialsProcessorConfig, num_animated_texels: u32) -> u32 {
    let d = dynamic_update_period(num_animated_texels, config.animated_textures_update_texels_limit);
    if config.animated_textures_update_period > d {
        config.animated_textures_update_period
    } else {
        d
    }
}

/// A texture of update order `order` is animated in frame `frame` of an update period `period`.
pub open spec fn animated_in_frame(order: int, frame: int, period: int) -> bool {
    order % period == frame % period
}

/// The configured period brought within the period bounds.
pub open spec fn clamped_period(period: u32) -> u32 {
    if period < ANIMATIONS_UPDATE_PERIOD_MIN {
        ANIMATIONS_UPDATE_PERIOD_MIN
    } else if period > ANIMATIONS_UPDATE_PERIOD_MAX {
        ANIMATIONS_UPDATE_PERIOD_MAX
    } else {
        period
    }
}

/// The settings and update order after taking `updated` settings: the period is brought within its
/// bounds, and the order is recomputed for it when the configured period changed.
pub open spec fn config_synchronized(
    old_config: MapMaterialsProcessorConfig,
    counts: Seq<Option<u32>>,
    old_orders: Seq<u32>,
    updated: MapMaterialsProcessorConfig,
    config: MapMaterialsProcessorConfig,
    orders: Seq<u32>,
) -> bool {
    &&& config.animated_textures_update_period == clamped_period(updated.animated_textures_update_period)
    &&& config.animated_textures_update_texels_limit == updated.animated_textures_update_texels_limit
    &&& if updated.animated_textures_update_period != old_config.animated_textures_update_period {
        orders_scheduled(config.animated_textures_update_period, counts, old_orders, orders)
    } else {
        orders == old_orders
    }
}

/// The settings name a period outside the period bounds.
pub open spec fn period_out_of_bounds(config: MapMaterialsProcessorConfig) -> bool {
    config.animated_textures_update_period < ANIMATIONS_UPDATE_PERIOD_MIN
        || config.animated_textures_update_period > ANIMATIONS_UPDATE_PERIOD_MAX
}

proof fn lemma_bin_total_frame(counts: Seq<Option<u32>>, orders: Seq<u32>, orders2: Seq<u32>, t: int, b: int)
    requires
        forall|j: int| 0 <= j < t ==> orders[j] == orders2[j],
    ensures
        bin_total(counts, orders, t, b) == bin_total(counts, orders2, t, b),
    decreases t,
{
    if t > 0 {
        lemma_bin_total_frame(counts, orders, orders2, t - 1, b);
    }
}

proof fn lemma_bin_total_bounds(counts: Seq<Option<u32>>, orders: Seq<u32>, t: int, b: int)
    ensures
        0 <= bin_total(counts, orders, t, b) <= total_texels(counts, t),
    decreases t,
{
    if t > 0 {
        lemma_bin_total_bounds(counts, orders, t - 1, b);
    }
}

proof fn lemma_total_monotone(counts: Seq<Option<u32>>, t: int, n: int)
    requires
        t <= n,
    ensures
        total_texels(counts, t) <= total_texels(counts, n),
    decreases n - t,
{
    if t < n {
        lemma_total_monotone(counts, t, n - 1);
    }
}

proof fn lemma_none_animated_total(counts: Seq<Option<u32>>, t: int)
    requires
        0 <= t <= counts.len(),
        none_animated(counts),
    ensures
        total_texels(counts, t) == 0,
    decreases t,
{
    if t > 0 {
        lemma_none_animated_total(counts, t - 1);
    }
}

/// Each animated texture gets an order below the period (order 0 for a period of zero).
pub proof fn lemma_scheduled_orders_below_period(
    period: u32,
    counts: Seq<Option<u32>>,
    old_orders: Seq<u32>,
    orders: Seq<u32>,
    t: int,
)
    requires
        orders_scheduled(period, counts, old_orders, orders),
        0 <= t < orders.len(),
        counts[t] is Some || period == ANIMATIONS_UPDATE_PERIOD_MIN,
    ensures
        orders[t] < if period == 0 {
            1
        } else {
            period
        },
{
    if period != ANIMATIONS_UPDATE_PERIOD_MIN {
        assert(is_best_bin(counts, orders, t, period as int, orders[t] as int));
    }
}

/// With an update period of `period` frames, a texture is animated in exactly one frame of any
/// `period` consecutive frames.
pub proof fn lemma_animated_once_per_period(order: int, period: int, start: int)
    requires
        period >= 1,
    ensures
        exists|f: int| start <= f < start + period && #[trigger] animated_in_frame(order, f, period),
        forall|f1: int, f2: int|
            start <= f1 < start + period && start <= f2 < start + period && #[trigger] animated_in_frame(order, f1, period)
                && #[trigger] animated_in_frame(order, f2, period) ==> f1 == f2,
{
    let r = order % period;
    let s = start % period;
    let f = if r >= s {
        start + (r - s)
    } else {
        start + (period - s) + r
    };
    assert(f % period == r) by (nonlinear_arith)
        requires
            period >= 1,
            r == order % period,
            s == start % period,
            0 <= r < period,
            0 <= s < period,
            f == (if r >= s {
                start + (r - s)
            } else {
                start + (period - s) + r
            }),
    ;
    assert(animated_in_frame(order, f, period));
    assert forall|f1: int, f2: int|
        start <= f1 < start + period && start <= f2 < start + period && #[trigger] animated_in_frame(order, f1, period)
            && #[trigger] animated_in_frame(order, f2, period) implies f1 == f2 by {
        assert(f1 == f2) by (nonlinear_arith)
            requires
                period >= 1,
                start <= f1 < start + period,
                start <= f2 < start + period,
                f1 % period == f2 % period,
        ;
    }
}

/// The scheduling part of the materials processor: which animated (generatively updated) textures
/// are updated in which frame, spreading their texels evenly over the frames of the update period.
pub struct MapMaterialsProcessor {
    config: MapMaterialsProcessorConfig,
    texel_counts: Vec<Option<u32>>,
    animated_texture_order: Vec<u32>,
    num_animated_texels: u32,
    current_frame: u32,
}

impl MapMaterialsProcessor {
    pub closed spec fn spec_config(&self) -> MapMaterialsProcessorConfig {
        self.config
    }

    pub closed spec fn spec_counts(&self) -> Seq<Option<u32>> {
        self.texel_counts@
    }

    pub closed spec fn spec_orders(&self) -> Seq<u32> {
        self.animated_texture_order@
    }

    pub closed spec fn spec_num_animated_texels(&self) -> u32 {
        self.num_animated_texels
    }

    pub closed spec fn spec_current_frame(&self) -> u32 {
        self.current_frame
    }

    /// One order per texture, the texel total is that of the animated textures, and the period can be
    /// searched wherever some texture is animated.
    pub closed spec fn wf(&self) -> bool {
        &&& self.animated_texture_order@.len() == self.texel_counts@.len()
        &&& self.num_animated_texels == total_texels(self.texel_counts@, self.texel_counts@.len() as int)
        &&& (self.config.animated_textures_update_period <= ANIMATIONS_UPDATE_PERIOD_MAX || none_animated(
            self.texel_counts@,
        ))
    }

    /// Starts with the given settings, taken as they are, and the texel count of each texture's
    /// generative effect (`None` for a texture without one); computes the update order.
    pub fn new(config: MapMaterialsProcessorConfig, texel_counts: Vec<Option<u32>>) -> (r: Self)
        requires
            total_texels(texel_counts@, texel_counts@.len() as int) <= u32::MAX,
            config.animated_textures_update_period <= ANIMATIONS_UPDATE_PERIOD_MAX || none_animated(texel_counts@),
        ensures
            r.wf(),
            r.spec_config() == config,
            r.spec_counts() == texel_counts@,
            r.spec_current_frame() == 0,
            r.spec_num_animated_texels() == total_texels(texel_counts@, texel_counts@.len() as int),
            orders_scheduled(
                config.animated_textures_update_period,
                texel_counts@,
                Seq::new(texel_counts@.len(), |t: int| 0u32),
                r.spec_orders(),
            ),
    {
        let n = texel_counts.len();
        let mut total: u32 = 0;
        let mut orders: Vec<u32> = Vec::new();
        let mut t: usize = 0;
        while t < n
            invariant
                n == texel_counts@.len(),
                t <= n,
                total_texels(texel_counts@, n as int) <= u32::MAX,
                total == total_texels(texel_counts@, t as int),
                orders@ == Seq::new(t as nat, |i: int| 0u32),
            decreases n - t,
        {
            proof {
                lemma_total_monotone(texel_counts@, t as int + 1, n as int);
            }
            match texel_counts[t] {
                Some(c) => {
                    total = total + c;
                },
                None => {},
            }
            orders.push(0);
            t = t + 1;
            assert(orders@ =~= Seq::new(t as nat, |i: int| 0u32));
        }
        let mut r = MapMaterialsProcessor {
            config,
            texel_counts,
            animated_texture_order: orders,
            num_animated_texels: total,
            current_frame: 0,
        };
        r.recalculate_update_order();
        r
    }

    /// Texels of all animated textures.
    pub fn get_num_animated_texels(&self) -> (r: u32)
        ensures
            r == self.spec_num_animated_texels(),
    {
        self.num_animated_texels
    }

    /// The settings in use.
    pub fn get_config(&self) -> (r: MapMaterialsProcessorConfig)
        ensures
            r == self.spec_config(),
    {
        self.config
    }

    /// Update order of each texture.
    pub fn get_animated_texture_orders(&self) -> (r: Vec<u32>)
        ensures
            r@ == self.spec_orders(),
    {
        self.animated_texture_order.clone()
    }


    /// Takes new settings. Returns whether their period lay outside the period bounds and was
    /// corrected, so that the stored settings should get the corrected value.
    pub fn synchronize_config(&mut self, config_updated: MapMaterialsProcessorConfig) -> (dirty: bool)
        requires
            old(self).wf(),
        ensures
            final(self).wf(),
            dirty == period_out_of_bounds(config_updated),
            config_synchronized(
                old(self).spec_config(),
                old(self).spec_counts(),
                old(self).spec_orders(),
                config_updated,
                final(self).spec_config(),
                final(self).spec_orders(),
            ),
            final(self).spec_counts() == old(self).spec_counts(),
            final(self).spec_num_animated_texels() == old(self).spec_num_animated_texels(),
            final(self).spec_current_frame() == old(self).spec_current_frame(),
    {
        let period_changed = config_updated.animated_textures_update_period
            != self.config.animated_textures_update_period;
        self.config = config_updated;
        let mut config_is_dirty = false;
        if self.config.animated_textures_update_period < ANIMATIONS_UPDATE_PERIOD_MIN {
            self.config.animated_textures_update_period = ANIMATIONS_UPDATE_PERIOD_MIN;
            config_is_dirty = true;
        }
        if self.config.animated_textures_update_period > ANIMATIONS_UPDATE_PERIOD_MAX {
            self.config.animated_textures_update_period = ANIMATIONS_UPDATE_PERIOD_MAX;
            config_is_dirty = true;
        }
        if period_changed {
            self.recalculate_update_order();
        }
        config_is_dirty
    }

    /// The update period for the current settings and animated texels.
    pub fn get_update_period(&self) -> (r: u32)
        ensures
            r == update_period(self.spec_config(), self.spec_num_animated_texels()),
    {
        let limit = self.config.animated_textures_update_texels_limit;
        let dynamic_period = if limit == 0 {
            1
        } else {
            let q = self.num_animated_texels / limit;
            if q < ANIMATIONS_UPDATE_PERIOD_MIN {
                ANIMATIONS_UPDATE_PERIOD_MIN
            } else if q > ANIMATIONS_UPDATE_PERIOD_MAX {
                ANIMATIONS_UPDATE_PERIOD_MAX
            } else {
                q
            }
        };
        if self.config.animated_textures_update_period > dynamic_period {
            self.config.animated_textures_update_period
        } else {
            dynamic_period
        }
    }

    /// Advances to the next frame with the given settings. Returns whether the settings had to be
    /// corrected, and for each texture whether its generative effect is updated in this frame: only a
    /// fraction of the animated textures is updated each frame, as their orders say.
    pub fn update(&mut self, config_updated: MapMaterialsProcessorConfig) -> (r: (bool, Vec<bool>))
        requires
            old(self).wf(),
            old(self).spec_current_frame() < u32::MAX,
        ensures
            final(self).wf(),
            final(self).spec_current_frame() == old(self).spec_current_frame() + 1,
            r.0 == period_out_of_bounds(config_updated),
            config_synchronized(
                old(self).spec_config(),
                old(self).spec_counts(),
                old(self).spec_orders(),
                config_updated,
                final(self).spec_config(),
                final(self).spec_orders(),
            ),
            final(self).spec_counts() == old(self).spec_counts(),
            final(self).spec_num_animated_texels() == old(self).spec_num_animated_texels(),
            r.1@.len() == old(self).spec_counts().len(),
            forall|t: int|
                0 <= t < r.1@.len() ==> #[trigger] r.1@[t] == (final(self).spec_counts()[t] is Some && animated_in_frame(
                    final(self).spec_orders()[t] as int,
                    final(self).spec_current_frame() as int,
                    update_period(final(self).spec_config(), final(self).spec_num_animated_texels()) as int,
                )),
    {
        self.current_frame = self.current_frame + 1;
        let dirty = self.synchronize_config(config_updated);
        let period = self.get_update_period();
        let current_update_order = self.current_frame % period;
        let n = self.texel_counts.len();
        let mut animate: Vec<bool> = Vec::new();
        let mut t: usize = 0;
        while t < n
            invariant
                n == self.texel_counts@.len(),
                self.animated_texture_order@.len() == n,
                period >= 1,
                current_update_order == self.current_frame % period,
                t <= n,
                animate@.len() == t,
                forall|i: int|
                    0 <= i < t ==> #[trigger] animate@[i] == (self.texel_counts@[i] is Some && animated_in_frame(
                        self.animated_texture_order@[i] as int,
                        self.current_frame as int,
                        period as int,
                    )),
            decreases n - t,
        {
            let a = self.texel_counts[t].is_some() && self.animated_texture_order[t] % period == current_update_order;
            animate.push(a);
            t = t + 1;
        }
        (dirty, animate)
    }

    /// Recomputes the update order of the textures for the configured period.
    fn recalculate_update_order(&mut self)
        requires
            old(self).animated_texture_order@.len() == old(self).texel_counts@.len(),
            total_texels(old(self).texel_counts@, old(self).texel_counts@.len() as int) <= u32::MAX,
            old(self).config.animated_textures_update_period <= ANIMATIONS_UPDATE_PERIOD_MAX || none_animated(
                old(self).texel_counts@,
            ),
        ensures
            final(self).config == old(self).config,
            final(self).texel_counts == old(self).texel_counts,
            final(self).num_animated_texels == old(self).num_animated_texels,
            final(self).current_frame == old(self).current_frame,
            orders_scheduled(
                old(self).config.animated_textures_update_period,
                old(self).texel_counts@,
                old(self).animated_texture_order@,
                final(self).animated_texture_order@,
            ),
    {
        let period = self.config.animated_textures_update_period;
        let n = self.texel_counts.len();
        if period == ANIMATIONS_UPDATE_PERIOD_MIN {
            let mut t: usize = 0;
            while t < n
                invariant
                    n == self.texel_counts@.len(),
                    self.animated_texture_order@.len() == n,
                    t <= n,
                    self.config == old(self).config,
                    self.texel_counts == old(self).texel_counts,
                    self.num_animated_texels == old(self).num_animated_texels,
                    self.current_frame == old(self).current_frame,
                    forall|i: int| 0 <= i < t ==> #[trigger] self.animated_texture_order@[i] == 0,
                decreases n - t,
            {
                self.animated_texture_order.set(t, 0);
                t = t + 1;
            }
        } else {
            let ghost counts = self.texel_counts@;
            let ghost old_orders = self.animated_texture_order@;
            let mut bins: Vec<u32> = Vec::new();
            let mut b: usize = 0;
            while b < 16
                invariant
                    b <= 16,
                    bins@.len() == b,
                    forall|i: int| 0 <= i < b ==> #[trigger] bins@[i] == 0,
                decreases 16 - b,
            {
                bins.push(0);
                b = b + 1;
            }
            let mut t: usize = 0;
            while t < n
                invariant
                    n == counts.len(),
                    counts == self.texel_counts@,
                    period == self.config.animated_textures_update_period,
                    period != ANIMATIONS_UPDATE_PERIOD_MIN,
                    period <= ANIMATIONS_UPDATE_PERIOD_MAX || none_animated(counts),
                    total_texels(counts, n as int) <= u32::MAX,
                    self.animated_texture_order@.len() == n,
                    old_orders.len() == n,
                    t <= n,
                    self.config == old(self).config,
                    self.texel_counts == old(self).texel_counts,
                    self.num_animated_texels == old(self).num_animated_texels,
                    self.current_frame == old(self).current_frame,
                    bins@.len() == 16,
                    forall|i: int| 0 <= i < 16 ==> #[trigger] bins@[i] == bin_total(counts, self.animated_texture_order@, t as int, i),
                    forall|i: int| t <= i < n ==> #[trigger] self.animated_texture_order@[i] == old_orders[i],
                    forall|i: int| 0 <= i < t && counts[i] is None ==> #[trigger] self.animated_texture_order@[i] == old_orders[i],
                    forall|i: int|
                        0 <= i < t && counts[i] is Some ==> is_best_bin(
                            counts,
                            self.animated_texture_order@,
                            i,
                            period as int,
                            #[trigger] self.animated_texture_order@[i] as int,
                        ),
                decreases n - t,
            {
                let ghost orders_before = self.animated_texture_order@;
                match self.texel_counts[t] {
                    Some(c) => {
                        assert(period <= ANIMATIONS_UPDATE_PERIOD_MAX) by {
                            if period > ANIMATIONS_UPDATE_PERIOD_MAX {
                                assert(counts[t as int] is Some);
                            }
                        }
                        let mut best_bin: u32 = 0;
                        let mut smallest: u32 = BIN_SEARCH_START;
                        let mut i: u32 = 0;
                        while i < period
                            invariant
                                period <= 16,
                                i <= period,
                                bins@.len() == 16,
                                forall|j: int| 0 <= j < 16 ==> #[trigger] bins@[j] == bin_total(counts, orders_before, t as int, j),
                                if forall|j: int| 0 <= j < i ==> #[trigger] bin_total(counts, orders_before, t as int, j)
                                    >= BIN_SEARCH_START {
                                    best_bin == 0 && smallest == BIN_SEARCH_START
                                } else {
                                    &&& best_bin < i
                                    &&& smallest == bin_total(counts, orders_before, t as int, best_bin as int)
                                    &&& smallest < BIN_SEARCH_START
                                    &&& forall|j: int| 0 <= j < i ==> smallest <= #[trigger] bin_total(counts, orders_before, t as int, j)
                                    &&& forall|j: int| 0 <= j < best_bin ==> smallest < #[trigger] bin_total(counts, orders_before, t as int, j)
                                },
                            decreases period - i,
                        {
                            if bins[i as usize] < smallest {
                                smallest = bins[i as usize];
                                best_bin = i;
                            }
                            i = i + 1;
                        }
                        assert(is_best_bin(counts, orders_before, t as int, period as int, best_bin as int));
                        proof {
                            lemma_bin_total_bounds(counts, orders_before, t as int, best_bin as int);
                            lemma_total_monotone(counts, t as int + 1, n as int);
                        }
                        self.animated_texture_order.set(t, best_bin);
                        let ghost orders_after = self.animated_texture_order@;
                        proof {
                            assert forall|j: int| 0 <= j < period implies bin_total(counts, orders_after, t as int, j)
                                == bin_total(counts, orders_before, t as int, j) by {
                                lemma_bin_total_frame(counts, orders_after, orders_before, t as int, j);
                            }
                        }
                        let bb = best_bin as usize;
                        bins.set(bb, bins[bb] + c);
                        proof {
                            assert forall|i: int|
                                0 <= i < t + 1 && counts[i] is Some implies is_best_bin(
                                counts,
                                orders_after,
                                i,
                                period as int,
                                #[trigger] orders_after[i] as int,
                            ) by {
                                assert forall|j: int| 0 <= j < period implies bin_total(counts, orders_after, i, j)
                                    == bin_total(counts, orders_before, i, j) by {
                                    lemma_bin_total_frame(counts, orders_after, orders_before, i, j);
                                }
                            }
                            assert forall|j: int| 0 <= j < 16 implies #[trigger] bins@[j] == bin_total(
                                counts,
                                orders_after,
                                t as int + 1,
                                j,
                            ) by {
                                lemma_bin_total_frame(counts, orders_after, orders_before, t as int, j);
                            }
                        }
                    },
                    None => {
                        proof {
                            assert forall|j: int| 0 <= j < 16 implies #[trigger] bins@[j] == bin_total(
                                counts,
                                self.animated_texture_order@,
                                t as int + 1,
                                j,
                            ) by {}
                        }
                    },
                }
                t = t + 1;
            }
        }
    }
}

} // verus!
