//! Per-widget configuration: the remembered position and size of each
//! widget window, whether it is locked, and the town the forecast is for.
//!
//! The store keeps one entry per widget label. Reading a label that has no
//! entry gives the defaults, so a first launch and an unknown widget look
//! the same; every setter creates the entry when it is missing and changes
//! only the fields it names. Persisting the configuration is left to the
//! caller, which serialises `ConfigStore::config` after each change.
use vstd::prelude::*;
use crate::text::{trim, trimmed, trim_start, trim_end, is_white_space};

verus! {

/// One widget's remembered state. `x`/`y` are the physical screen position
/// of its window, `width`/`height` its physical size, `None` until first
/// recorded; a locked widget cannot be dragged.
#[derive(Clone, Copy, Debug, PartialEq, Eq, Structural)]
pub struct WidgetConfig {
    pub x: Option<i32>,
    pub y: Option<i32>,
    pub width: Option<u32>,
    pub height: Option<u32>,
    pub locked: bool,
}

/// Nothing recorded, unlocked.
pub open spec fn default_widget() -> WidgetConfig {
    WidgetConfig { x: None, y: None, width: None, height: None, locked: false }
}

impl Default for WidgetConfig {
    fn default() -> (r: Self)
        ensures
            r == default_widget(),
    {
        WidgetConfig { x: None, y: None, width: None, height: None, locked: false }
    }
}

/// The configuration of the widget called `label`.
pub struct WidgetEntry {
    pub label: String,
    pub config: WidgetConfig,
}

/// The whole configuration: the town for the forecast, if set, and the
/// widget entries. Where two entries share a label, the first one counts.
pub struct Config {
    pub place: Option<String>,
    pub widgets: Vec<WidgetEntry>,
}

impl Default for Config {
    fn default() -> (r: Self)
        ensures
            r.place is None,
            r.widgets@.len() == 0,
    {
        Config { place: None, widgets: Vec::new() }
    }
}

/// `i` is the first entry of `s` with label `label`.
pub open spec fn is_first_match(s: Seq<WidgetEntry>, label: Seq<char>, i: int) -> bool {
    &&& 0 <= i < s.len()
    &&& s[i].label@ == label
    &&& forall|j: int| 0 <= j < i ==> (#[trigger] s[j]).label@ != label
}

/// Some entry of `s` has label `label`.
pub open spec fn has_label(s: Seq<WidgetEntry>, label: Seq<char>) -> bool {
    exists|i: int| 0 <= i < s.len() && (#[trigger] s[i]).label@ == label
}

/// The first entry of `s` with label `label`.
pub open spec fn first_match(s: Seq<WidgetEntry>, label: Seq<char>) -> int {
    choose|i: int| is_first_match(s, label, i)
}

/// The entries as a map from label to configuration.
pub open spec fn widget_map(s: Seq<WidgetEntry>) -> Map<Seq<char>, WidgetConfig> {
    Map::new(|l: Seq<char>| has_label(s, l), |l: Seq<char>| s[first_match(s, l)].config)
}

/// A configuration as plain values: the place text and the widget map.
pub struct ConfigView {
    pub place: Option<Seq<char>>,
    pub widgets: Map<Seq<char>, WidgetConfig>,
}

/// The view of a configuration.
pub open spec fn config_view(c: Config) -> ConfigView {
    ConfigView {
        place: match c.place {
            Some(p) => Some(p@),
            None => None,
        },
        widgets: widget_map(c.widgets@),
    }
}

/// The configuration of widget `label`: its entry, or the defaults.
pub open spec fn widget_of(c: ConfigView, label: Seq<char>) -> WidgetConfig {
    if c.widgets.contains_key(label) {
        c.widgets[label]
    } else {
        default_widget()
    }
}

/// `c` with widget `label` set to `w`.
pub open spec fn with_widget(c: ConfigView, label: Seq<char>, w: WidgetConfig) -> ConfigView {
    ConfigView { widgets: c.widgets.insert(label, w), ..c }
}

/// `c` after recording position `(x, y)` for widget `label`.
pub open spec fn with_position(c: ConfigView, label: Seq<char>, x: i32, y: i32) -> ConfigView {
    with_widget(c, label, WidgetConfig { x: Some(x), y: Some(y), ..widget_of(c, label) })
}

/// `c` after recording size `width` × `height` for widget `label`.
pub open spec fn with_size(c: ConfigView, label: Seq<char>, width: u32, height: u32) -> ConfigView {
    with_widget(
        c,
        label,
        WidgetConfig { width: Some(width), height: Some(height), ..widget_of(c, label) },
    )
}

/// `c` after recording lock state `locked` for widget `label`.
pub open spec fn with_locked(c: ConfigView, label: Seq<char>, locked: bool) -> ConfigView {
    with_widget(c, label, WidgetConfig { locked: locked, ..widget_of(c, label) })
}

/// The town used when none is configured, or only blanks are.
pub open spec fn default_place() -> Seq<char> {
    "Helsinki"@
}

/// The configured town, trimmed, or `Helsinki` when it is missing or blank.
pub open spec fn place_of(c: ConfigView) -> Seq<char> {
    match c.place {
        Some(p) => if trimmed(p).len() > 0 {
            trimmed(p)
        } else {
            default_place()
        },
        None => default_place(),
    }
}

proof fn lemma_first_match_unique(s: Seq<WidgetEntry>, label: Seq<char>, i: int)
    requires
        is_first_match(s, label, i),
    ensures
        first_match(s, label) == i,
{
    let k = first_match(s, label);
    assert(is_first_match(s, label, k));
    if k < i {
        assert(s[k].label@ != label);
    } else if i < k {
        assert(s[i].label@ != label);
    }
}

proof fn lemma_has_first_match(s: Seq<WidgetEntry>, label: Seq<char>)
    requires
        has_label(s, label),
    ensures
        is_first_match(s, label, first_match(s, label)),
    decreases s.len(),
{
    let i = choose|i: int| 0 <= i < s.len() && (#[trigger] s[i]).label@ == label;
    if s[0].label@ == label {
        lemma_first_match_unique(s, label, 0);
    } else {
        let t = s.drop_first();
        assert(t[i - 1] == s[i]);
        assert(has_label(t, label));
        lemma_has_first_match(t, label);
        let k = first_match(t, label);
        assert forall|j: int| 0 <= j < k + 1 implies (#[trigger] s[j]).label@ != label by {
            if j > 0 {
                assert(s[j] == t[j - 1]);
            }
        }
        assert(is_first_match(s, label, k + 1));
        lemma_first_match_unique(s, label, k + 1);
    }
}

proof fn lemma_map_update(s: Seq<WidgetEntry>, i: int, e: WidgetEntry)
    requires
        is_first_match(s, e.label@, i),
    ensures
        widget_map(s.update(i, e)) == widget_map(s).insert(e.label@, e.config),
{
    let t = s.update(i, e);
    let l = e.label@;
    assert forall|k: Seq<char>| has_label(t, k) == has_label(s, k) by {
        if has_label(s, k) {
            let j = choose|j: int| 0 <= j < s.len() && (#[trigger] s[j]).label@ == k;
            if j == i {
                assert(t[i].label@ == k);
            } else {
                assert(t[j] == s[j]);
            }
        }
        if has_label(t, k) {
            let j = choose|j: int| 0 <= j < t.len() && (#[trigger] t[j]).label@ == k;
            if j == i {
                assert(s[i].label@ == k);
            } else {
                assert(t[j] == s[j]);
            }
        }
    }
    assert forall|k: Seq<char>| has_label(t, k) implies t[first_match(t, k)].config == (if k == l {
        e.config
    } else {
        s[first_match(s, k)].config
    }) by {
        lemma_has_first_match(s, k);
        let j = first_match(s, k);
        assert forall|m: int| 0 <= m < j implies (#[trigger] t[m]).label@ != k by {
            if m == i {
                assert(s[i].label@ == l);
            } else {
                assert(t[m] == s[m]);
            }
        }
        if j == i {
            assert(is_first_match(t, k, j));
        } else {
            assert(t[j] == s[j]);
            assert(is_first_match(t, k, j));
        }
        lemma_first_match_unique(t, k, j);
        if k == l {
            lemma_first_match_unique(s, k, i);
        }
    }
    assert(widget_map(t) =~= widget_map(s).insert(l, e.config));
}

proof fn lemma_map_push(s: Seq<WidgetEntry>, e: WidgetEntry)
    requires
        !has_label(s, e.label@),
    ensures
        widget_map(s.push(e)) == widget_map(s).insert(e.label@, e.config),
{
    let t = s.push(e);
    let l = e.label@;
    assert forall|k: Seq<char>| has_label(t, k) == (has_label(s, k) || k == l) by {
        if has_label(s, k) {
            let j = choose|j: int| 0 <= j < s.len() && (#[trigger] s[j]).label@ == k;
            assert(t[j] == s[j]);
        }
        if k == l {
            assert(t[s.len() as int].label@ == k);
        }
        if has_label(t, k) {
            let j = choose|j: int| 0 <= j < t.len() && (#[trigger] t[j]).label@ == k;
            if j < s.len() {
                assert(t[j] == s[j]);
            }
        }
    }
    assert forall|k: Seq<char>| has_label(t, k) implies t[first_match(t, k)].config == (if k == l {
        e.config
    } else {
        s[first_match(s, k)].config
    }) by {
        if k == l {
            assert forall|m: int| 0 <= m < s.len() implies (#[trigger] t[m]).label@ != k by {
                assert(t[m] == s[m]);
            }
            assert(is_first_match(t, k, s.len() as int));
            lemma_first_match_unique(t, k, s.len() as int);
        } else {
            lemma_has_first_match(s, k);
            let j = first_match(s, k);
            assert forall|m: int| 0 <= m < j implies (#[trigger] t[m]).label@ != k by {
                assert(t[m] == s[m]);
            }
            assert(t[j] == s[j]);
            assert(is_first_match(t, k, j));
            lemma_first_match_unique(t, k, j);
        }
    }
    assert(widget_map(t) =~= widget_map(s).insert(l, e.config));
}

fn find_label(entries: &Vec<WidgetEntry>, key: &String) -> (r: Option<usize>)
    ensures
        match r {
            Some(i) => is_first_match(entries@, key@, i as int),
            None => !has_label(entries@, key@),
        },
{
    let n = entries.len();
    let mut i: usize = 0;
    while i < n
        invariant
            i <= n,
            n == entries@.len(),
            forall|j: int| 0 <= j < i ==> (#[trigger] entries@[j]).label@ != key@,
        decreases n - i,
    {
        if entries[i].label == *key {
            return Some(i);
        }
        i = i + 1;
    }
    None
}

/// The configuration held in memory, as the widgets and the forecast read
/// and change it.
pub struct ConfigStore {
    inner: Config,
}

impl View for ConfigStore {
    type V = ConfigView;

    closed spec fn view(&self) -> ConfigView {
        config_view(self.inner)
    }
}

impl ConfigStore {
    /// A store holding `config`.
    pub fn new(config: Config) -> (s: Self)
        ensures
            s@ == config_view(config),
    {
        ConfigStore { inner: config }
    }

    /// The configuration as it stands, for saving.
    pub fn config(&self) -> (c: &Config)
        ensures
            config_view(*c) == self@,
    {
        &self.inner
    }

    /// The town or city the forecast is for. A missing, empty or
    /// whitespace-only setting falls back to "Helsinki", so the forecast
    /// always has a place to ask for.
    pub fn place(&self) -> (r: String)
        ensures
            r@ == place_of(self@),
    {
        match &self.inner.place {
            Some(p) => {
                let t = trim(p.as_str());
                if t.as_str().is_empty() {
                    String::from_str("Helsinki")
                } else {
                    t
                }
            },
            None => String::from_str("Helsinki"),
        }
    }

    /// A snapshot of widget `label`'s configuration; the defaults for a
    /// label that has none.
    pub fn get(&self, label: &str) -> (r: WidgetConfig)
        ensures
            r == widget_of(self@, label@),
    {
        let key = label.to_owned();
        match find_label(&self.inner.widgets, &key) {
            Some(i) => {
                proof {
                    lemma_first_match_unique(self.inner.widgets@, label@, i as int);
                }
                self.inner.widgets[i].config
            },
            None => WidgetConfig::default(),
        }
    }

    fn put(&mut self, label: &str, w: WidgetConfig)
        ensures
            final(self)@ == with_widget(old(self)@, label@, w),
    {
        let key = label.to_owned();
        let ghost s = self.inner.widgets@;
        match find_label(&self.inner.widgets, &key) {
            Some(i) => {
                let mut e = self.inner.widgets.remove(i);
                e.config = w;
                self.inner.widgets.insert(i, e);
                proof {
                    assert(self.inner.widgets@ =~= s.update(i as int, e));
                    lemma_map_update(s, i as int, e);
                }
            },
            None => {
                let e = WidgetEntry { label: key, config: w };
                self.inner.widgets.push(e);
                proof {
                    lemma_map_push(s, e);
                }
            },
        }
    }

    /// Records the latest physical position of widget `label`.
    pub fn set_position(&mut self, label: &str, x: i32, y: i32)
        ensures
            final(self)@ == with_position(old(self)@, label@, x, y),
    {
        let mut w = self.get(label);
        w.x = Some(x);
        w.y = Some(y);
        self.put(label, w);
    }

    /// Records the latest physical size of widget `label`.
    pub fn set_size(&mut self, label: &str, width: u32, height: u32)
        ensures
            final(self)@ == with_size(old(self)@, label@, width, height),
    {
        let mut w = self.get(label);
        w.width = Some(width);
        w.height = Some(height);
        self.put(label, w);
    }

    /// Records whether widget `label` is locked.
    pub fn set_locked(&mut self, label: &str, locked: bool)
        ensures
            final(self)@ == with_locked(old(self)@, label@, locked),
    {
        let mut w = self.get(label);
        w.locked = locked;
        self.put(label, w);
    }
}

/// Reading back a recorded position gives that position; the size and the
/// lock state of the widget stay as they were.
pub proof fn law_position_read_back(c: ConfigView, label: Seq<char>, x: i32, y: i32)
    ensures
        widget_of(with_position(c, label, x, y), label) == (WidgetConfig {
            x: Some(x),
            y: Some(y),
            ..widget_of(c, label)
        }),
{
}

/// Reading back a recorded size gives that size; the position and the lock
/// state of the widget stay as they were.
pub proof fn law_size_read_back(c: ConfigView, label: Seq<char>, width: u32, height: u32)
    ensures
        widget_of(with_size(c, label, width, height), label) == (WidgetConfig {
            width: Some(width),
            height: Some(height),
            ..widget_of(c, label)
        }),
{
}

/// Reading back a recorded lock state gives that state; position and size
/// stay as they were.
pub proof fn law_locked_read_back(c: ConfigView, label: Seq<char>, locked: bool)
    ensures
        widget_of(with_locked(c, label, locked), label) == (WidgetConfig {
            locked: locked,
            ..widget_of(c, label)
        }),
{
}

/// Recording anything for one widget leaves every other widget, and the
/// place, as they were.
pub proof fn law_other_widgets_unchanged(
    c: ConfigView,
    label: Seq<char>,
    other: Seq<char>,
    x: i32,
    y: i32,
    width: u32,
    height: u32,
    locked: bool,
)
    requires
        other != label,
    ensures
        widget_of(with_position(c, label, x, y), other) == widget_of(c, other),
        widget_of(with_size(c, label, width, height), other) == widget_of(c, other),
        widget_of(with_locked(c, label, locked), other) == widget_of(c, other),
        with_position(c, label, x, y).place == c.place,
        with_size(c, label, width, height).place == c.place,
        with_locked(c, label, locked).place == c.place,
{
}

/// A widget without an entry reads as the defaults: nothing recorded and
/// unlocked, the same as on a first launch.
pub proof fn law_unknown_widget_default(c: ConfigView, label: Seq<char>)
    requires
        !c.widgets.contains_key(label),
    ensures
        widget_of(c, label) == default_widget(),
{
}

/// Recording the same lock state twice is the same as recording it once.
pub proof fn law_set_locked_idempotent(c: ConfigView, label: Seq<char>, locked: bool)
    ensures
        with_locked(with_locked(c, label, locked), label, locked) == with_locked(c, label, locked),
{
    law_locked_read_back(c, label, locked);
    assert(with_locked(with_locked(c, label, locked), label, locked).widgets =~= with_locked(
        c,
        label,
        locked,
    ).widgets);
}

proof fn lemma_trim_start_head(s: Seq<char>)
    ensures
        trim_start(s).len() > 0 ==> !is_white_space(trim_start(s)[0]),
    decreases s.len(),
{
    if s.len() > 0 && is_white_space(s[0]) {
        lemma_trim_start_head(s.drop_first());
    }
}

proof fn lemma_trim_end_keeps_head(s: Seq<char>)
    ensures
        trim_end(s).len() > 0 ==> !is_white_space(trim_end(s).last()),
        trim_end(s).len() > 0 ==> trim_end(s)[0] == s[0],
        trim_end(s).len() <= s.len(),
    decreases s.len(),
{
    if s.len() > 0 && is_white_space(s.last()) {
        lemma_trim_end_keeps_head(s.drop_last());
    }
}

/// The place the forecast asks for is never empty and never starts or ends
/// with whitespace, whatever the configuration holds.
pub proof fn law_place_never_blank(c: ConfigView)
    ensures
        place_of(c).len() > 0,
        !is_white_space(place_of(c)[0]),
        !is_white_space(place_of(c).last()),
{
    reveal_strlit("Helsinki");
    match c.place {
        Some(p) => {
            if trimmed(p).len() > 0 {
                lemma_trim_start_head(p);
                lemma_trim_end_keeps_head(trim_start(p));
            }
        },
        None => {},
    }
}

/// One write to the configuration, as the window events and commands make
/// them.
pub enum ConfigWrite {
    Position(Seq<char>, i32, i32),
    Size(Seq<char>, u32, u32),
    Locked(Seq<char>, bool),
}

/// `c` after one write.
pub open spec fn apply_write(c: ConfigView, w: ConfigWrite) -> ConfigView {
    match w {
        ConfigWrite::Position(label, x, y) => with_position(c, label, x, y),
        ConfigWrite::Size(label, width, height) => with_size(c, label, width, height),
        ConfigWrite::Locked(label, locked) => with_locked(c, label, locked),
    }
}

/// `c` after the writes `ws`, in order.
pub open spec fn apply_writes(c: ConfigView, ws: Seq<ConfigWrite>) -> ConfigView
    decreases ws.len(),
{
    if ws.len() == 0 {
        c
    } else {
        apply_write(apply_writes(c, ws.drop_last()), ws.last())
    }
}

/// The lock state last written for `label` in `ws`, or the one `c` holds
/// when `ws` writes none.
pub open spec fn last_lock(c: ConfigView, ws: Seq<ConfigWrite>, label: Seq<char>) -> bool
    decreases ws.len(),
{
    if ws.len() == 0 {
        widget_of(c, label).locked
    } else {
        match ws.last() {
            ConfigWrite::Locked(l, locked) => if l == label {
                locked
            } else {
                last_lock(c, ws.drop_last(), label)
            },
            _ => last_lock(c, ws.drop_last(), label),
        }
    }
}

/// Whatever positions, sizes and other widgets' lock states are written
/// meanwhile, a widget reads back the lock state last written for it (or
/// the one it had, unlocked for a widget never seen).
pub proof fn law_lock_survives_other_writes(c: ConfigView, ws: Seq<ConfigWrite>, label: Seq<char>)
    ensures
        widget_of(apply_writes(c, ws), label).locked == last_lock(c, ws, label),
    decreases ws.len(),
{
    if ws.len() > 0 {
        law_lock_survives_other_writes(c, ws.drop_last(), label);
    }
}

/// The position to restore a widget to: only when both coordinates were
/// recorded, and never `(0, 0)`, which is what a native-Wayland session
/// records for every move.
pub open spec fn position_to_restore(c: WidgetConfig) -> Option<(i32, i32)> {
    match (c.x, c.y) {
        (Some(x), Some(y)) => if x != 0 || y != 0 {
            Some((x, y))
        } else {
            None
        },
        _ => None,
    }
}

/// The position to restore a widget to, if any.
pub fn saved_position(c: &WidgetConfig) -> (r: Option<(i32, i32)>)
    ensures
        r == position_to_restore(*c),
{
    match (c.x, c.y) {
        (Some(x), Some(y)) => if x != 0 || y != 0 {
            Some((x, y))
        } else {
            None
        },
        _ => None,
    }
}

/// The size to restore a widget to: only when both sides were recorded.
pub open spec fn size_to_restore(c: WidgetConfig) -> Option<(u32, u32)> {
    match (c.width, c.height) {
        (Some(w), Some(h)) => Some((w, h)),
        _ => None,
    }
}

/// The size to restore a widget to: only when both sides were recorded.
pub fn saved_size(c: &WidgetConfig) -> (r: Option<(u32, u32)>)
    ensures
        r == (match (c.width, c.height) {
            (Some(w), Some(h)) => Some((w, h)),
            _ => None,
        }),
        r == size_to_restore(*c),
{
    match (c.width, c.height) {
        (Some(w), Some(h)) => Some((w, h)),
        _ => None,
    }
}


/// A saved position is restored exactly when both coordinates were
/// recorded and they are not both zero; it is then the recorded one. A
/// saved size is restored exactly when both sides were recorded, as
/// recorded.
pub proof fn law_restore_position(c: WidgetConfig)
    ensures
        position_to_restore(c) is None <==> (c.x is None || c.y is None || (c.x == Some(0i32) && c.y
            == Some(0i32))),
        position_to_restore(c) matches Some((x, y)) ==> c.x == Some(x) && c.y == Some(y),
        size_to_restore(c) is None <==> (c.width is None || c.height is None),
        size_to_restore(c) matches Some((w, h)) ==> c.width == Some(w) && c.height == Some(h),
{
}


} // verus!
