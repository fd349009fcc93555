//! Extraction of Rockchip pin controller configurations.

use crate::dts::tree::{
    all_cells, cells_view, datas_view, flatten_cells, node_prop_data, Cell, CellV, Data, DataV,
    Node, NodeV,
};
use crate::text::{
    contains, dec_digits, fmt_dec, fmt_hex_prefixed, hex_prefixed, str_contains, str_eq,
    strings_view,
};
use crate::visitors::reg_extractor::pop_seq;
use crate::visitors::writer::{children_height, height};
use crate::visitors::{
    full_path, full_path_of, lemma_walk_keeps, walk_children, walk_spec, Visitor,
};
use vstd::prelude::*;

verus! {

/// Information about a single pin configuration.
#[derive(Debug, Clone)]
pub struct PinConfig {
    pub bank: u32,
    pub pin: u32,
    pub mux: u32,
    pub config: String,
}

/// Information about a scheme (a group of pins).
#[derive(Debug, Clone)]
pub struct SchemeInfo {
    pub name: String,
    pub pins: Vec<PinConfig>,
}

/// Information about a device (a group of schemes).
#[derive(Debug, Clone)]
pub struct DeviceInfo {
    pub alias: String,
    pub schemes: Vec<SchemeInfo>,
}

/// A pin configuration as seen by specifications.
pub struct PinConfigV {
    pub bank: u32,
    pub pin: u32,
    pub mux: u32,
    pub config: Seq<char>,
}

/// A scheme as seen by specifications.
pub struct SchemeInfoV {
    pub name: Seq<char>,
    pub pins: Seq<PinConfigV>,
}

/// A device as seen by specifications.
pub struct DeviceInfoV {
    pub alias: Seq<char>,
    pub schemes: Seq<SchemeInfoV>,
}

impl PinConfig {
    /// A copy of the configuration.
    pub fn copy(&self) -> (r: PinConfig)
        ensures
            r@ == self@,
    {
        PinConfig { bank: self.bank, pin: self.pin, mux: self.mux, config: self.config.clone() }
    }
}

impl View for PinConfig {
    type V = PinConfigV;

    open spec fn view(&self) -> PinConfigV {
        PinConfigV { bank: self.bank, pin: self.pin, mux: self.mux, config: self.config@ }
    }
}

/// The views of a list of pin configurations.
pub open spec fn pins_view(v: Seq<PinConfig>) -> Seq<PinConfigV> {
    v.map_values(|p: PinConfig| p@)
}

impl View for SchemeInfo {
    type V = SchemeInfoV;

    open spec fn view(&self) -> SchemeInfoV {
        SchemeInfoV { name: self.name@, pins: pins_view(self.pins@) }
    }
}

/// The views of a list of schemes.
pub open spec fn schemes_view(v: Seq<SchemeInfo>) -> Seq<SchemeInfoV> {
    v.map_values(|p: SchemeInfo| p@)
}

impl View for DeviceInfo {
    type V = DeviceInfoV;

    open spec fn view(&self) -> DeviceInfoV {
        DeviceInfoV { alias: self.alias@, schemes: schemes_view(self.schemes@) }
    }
}

/// The views of a list of devices.
pub open spec fn devices_view(v: Seq<DeviceInfo>) -> Seq<DeviceInfoV> {
    v.map_values(|p: DeviceInfo| p@)
}

// ---------------------------------------------------------------------------
// Specifications
// ---------------------------------------------------------------------------

/// A number cell as a `u32`; 0 for a reference.
pub open spec fn num_or_zero(c: CellV) -> u32 {
    match c {
        CellV::Num(n) => n as u32,
        CellV::Ref(..) => 0,
    }
}

/// The pin described by four cells `<bank pin mux config>`; the config is
/// the referenced label, or the number in hex.
pub open spec fn pin_of(c: Seq<CellV>) -> PinConfigV {
    PinConfigV {
        bank: num_or_zero(c[0]),
        pin: num_or_zero(c[1]),
        mux: num_or_zero(c[2]),
        config: match c[3] {
            CellV::Ref(s, _) => s,
            CellV::Num(n) => hex_prefixed(n as nat),
        },
    }
}

/// The pins of `cells` read in groups of four; a trailing partial group is ignored.
pub open spec fn rockchip_pins(cells: Seq<CellV>) -> Seq<PinConfigV>
    decreases cells.len(),
{
    if cells.len() < 4 {
        Seq::empty()
    } else {
        seq![pin_of(cells.subrange(0, 4))] + rockchip_pins(cells.skip(4))
    }
}

/// Whether some piece of `compatible` data is a string containing `pinctrl`.
pub open spec fn compat_has_pinctrl(data: Seq<DataV>) -> bool {
    exists|i: int|
        0 <= i < data.len() && #[trigger] data[i] is Str && contains(data[i]->Str_0, "pinctrl"@)
}

/// Whether `node` is a pin controller: compatible with `pinctrl`, or an
/// existing node named exactly `pinctrl`.
pub open spec fn is_pinctrl_spec(node: NodeV) -> bool {
    ||| match node.prop_data("compatible"@) {
        Some(data) => compat_has_pinctrl(data),
        None => false,
    }
    ||| match node {
        NodeV::Existing { name, .. } => name.text() == "pinctrl"@,
        NodeV::Deleted { .. } => false,
    }
}

/// The output lines for a list of pins.
pub open spec fn pins_text(pins: Seq<PinConfigV>) -> Seq<char>
    decreases pins.len(),
{
    if pins.len() == 0 {
        Seq::empty()
    } else {
        let p = pins.last();
        pins_text(pins.drop_last()) + seq!['g', 'p', 'i', 'o'] + dec_digits(p.bank as nat) + seq![
            ',',
        ] + dec_digits(p.pin as nat) + seq![','] + dec_digits(p.mux as nat) + seq![','] + p.config
            + seq!['\n']
    }
}

/// The output lines for a list of schemes.
pub open spec fn schemes_text(schemes: Seq<SchemeInfoV>) -> Seq<char>
    decreases schemes.len(),
{
    if schemes.len() == 0 {
        Seq::empty()
    } else {
        let s = schemes.last();
        schemes_text(schemes.drop_last()) + s.name + seq![','] + dec_digits(s.pins.len()) + seq![
            '\n',
        ] + pins_text(s.pins)
    }
}

/// The output text: per device `alias,scheme_count`, per scheme
/// `path,pin_count`, per pin `gpio<bank>,<pin>,<mux>,<config>`.
pub open spec fn devices_text(devices: Seq<DeviceInfoV>) -> Seq<char>
    decreases devices.len(),
{
    if devices.len() == 0 {
        Seq::empty()
    } else {
        let d = devices.last();
        devices_text(devices.drop_last()) + d.alias + seq![','] + dec_digits(d.schemes.len())
            + seq!['\n'] + schemes_text(d.schemes)
    }
}

/// The state of a `PinctrlExtractor` as seen by specifications.
pub struct PinctrlExtractorV {
    pub in_pinctrl: bool,
    pub depth: usize,
    pub path: Seq<Seq<char>>,
    pub current: Option<DeviceInfoV>,
    pub devices: Seq<DeviceInfoV>,
}

/// A visitor that extracts pinctrl information.
pub struct PinctrlExtractor {
    // Whether the walk is inside the pin controller node.
    in_pinctrl: bool,
    // Depth relative to the pin controller: 0 for itself, 1 for a device, 2 for a scheme.
    depth_stack: usize,
    path_stack: Vec<String>,
    // The device being collected.
    current_device: Option<DeviceInfo>,
    /// All collected devices.
    pub devices: Vec<DeviceInfo>,
}

impl View for PinctrlExtractor {
    type V = PinctrlExtractorV;

    closed spec fn view(&self) -> PinctrlExtractorV {
        PinctrlExtractorV {
            in_pinctrl: self.in_pinctrl,
            depth: self.depth_stack,
            path: strings_view(self.path_stack@),
            current: match self.current_device {
                Some(d) => Some(d@),
                None => None,
            },
            devices: devices_view(self.devices@),
        }
    }
}

proof fn lemma_map_push<A, B>(s: Seq<A>, x: A, f: spec_fn(A) -> B)
    ensures
        s.push(x).map_values(f) == s.map_values(f).push(f(x)),
{
    assert(s.push(x).map_values(f) =~= s.map_values(f).push(f(x)));
}

fn num_or_zero_exec(c: &Cell) -> (r: u32)
    ensures
        r == num_or_zero(c@),
{
    match c {
        Cell::Num(n) => *n as u32,
        Cell::Ref(..) => 0,
    }
}

impl PinctrlExtractor {
    /// The devices collected so far.
    pub fn devices(&self) -> (r: &Vec<DeviceInfo>)
        ensures
            devices_view(r@) == self@.devices,
    {
        &self.devices
    }

    pub fn new() -> (r: Self)
        ensures
            r@ == (PinctrlExtractorV {
                in_pinctrl: false,
                depth: 0,
                path: Seq::empty(),
                current: None,
                devices: Seq::empty(),
            }),
    {
        let r = Self {
            in_pinctrl: false,
            depth_stack: 0,
            path_stack: Vec::new(),
            current_device: None,
            devices: Vec::new(),
        };
        proof {
            assert(r@.path =~= Seq::<Seq<char>>::empty());
            assert(r@.devices =~= Seq::<DeviceInfoV>::empty());
        }
        r
    }

    pub fn output(&self) -> (r: String)
        ensures
            r@ == devices_text(self@.devices),
    {
        proof {
            reveal_strlit(",");
            reveal_strlit("\n");
            reveal_strlit("gpio");
            assert(","@ =~= seq![',']);
            assert("\n"@ =~= seq!['\n']);
            assert("gpio"@ =~= seq!['g', 'p', 'i', 'o']);
        }
        let mut output = String::new();
        let ghost dv = devices_view(self.devices@);
        let mut i: usize = 0;
        while i < self.devices.len()
            invariant
                i <= self.devices.len(),
                dv == devices_view(self.devices@),
                output@ == devices_text(dv.subrange(0, i as int)),
                ","@ == seq![','],
                "\n"@ == seq!['\n'],
                "gpio"@ == seq!['g', 'p', 'i', 'o'],
            decreases self.devices.len() - i,
        {
            let device = &self.devices[i];
            let ghost d = device@;
            let ghost out0 = output@;
            output.append(device.alias.as_str());
            output.append(",");
            let n = fmt_dec(device.schemes.len() as u64);
            output.append(n.as_str());
            output.append("\n");
            let ghost sv = schemes_view(device.schemes@);
            let ghost out1 = output@;
            let mut j: usize = 0;
            while j < device.schemes.len()
                invariant
                    j <= device.schemes.len(),
                    sv == schemes_view(device.schemes@),
                    output@ == out1 + schemes_text(sv.subrange(0, j as int)),
                    ","@ == seq![','],
                    "\n"@ == seq!['\n'],
                    "gpio"@ == seq!['g', 'p', 'i', 'o'],
                decreases device.schemes.len() - j,
            {
                let scheme = &device.schemes[j];
                let ghost out2 = output@;
                output.append(scheme.name.as_str());
                output.append(",");
                let m = fmt_dec(scheme.pins.len() as u64);
                output.append(m.as_str());
                output.append("\n");
                let ghost pv = pins_view(scheme.pins@);
                let ghost out3 = output@;
                let mut k: usize = 0;
                while k < scheme.pins.len()
                    invariant
                        k <= scheme.pins.len(),
                        pv == pins_view(scheme.pins@),
                        output@ == out3 + pins_text(pv.subrange(0, k as int)),
                        ","@ == seq![','],
                        "\n"@ == seq!['\n'],
                        "gpio"@ == seq!['g', 'p', 'i', 'o'],
                    decreases scheme.pins.len() - k,
                {
                    let pin = &scheme.pins[k];
                    let ghost out4 = output@;
                    output.append("gpio");
                    let t = fmt_dec(pin.bank as u64);
                    output.append(t.as_str());
                    output.append(",");
                    let t = fmt_dec(pin.pin as u64);
                    output.append(t.as_str());
                    output.append(",");
                    let t = fmt_dec(pin.mux as u64);
                    output.append(t.as_str());
                    output.append(",");
                    output.append(pin.config.as_str());
                    output.append("\n");
                    proof {
                        assert(pv[k as int] == pin@);
                        assert(pv.subrange(0, k + 1).drop_last() =~= pv.subrange(0, k as int));
                        assert(output@ =~= out3 + pins_text(pv.subrange(0, k + 1)));
                    }
                    k = k + 1;
                }
                proof {
                    assert(pv.subrange(0, scheme.pins.len() as int) =~= pv);
                    assert(sv[j as int] == scheme@);
                    assert(sv.subrange(0, j + 1).drop_last() =~= sv.subrange(0, j as int));
                    assert(output@ =~= out1 + schemes_text(sv.subrange(0, j + 1)));
                }
                j = j + 1;
            }
            proof {
                assert(sv.subrange(0, device.schemes.len() as int) =~= sv);
                assert(dv[i as int] == d);
                assert(dv.subrange(0, i + 1).drop_last() =~= dv.subrange(0, i as int));
                assert(output@ =~= devices_text(dv.subrange(0, i + 1)));
            }
            i = i + 1;
        }
        proof {
            assert(dv.subrange(0, self.devices.len() as int) =~= dv);
        }
        output
    }

    fn is_pinctrl_node(&self, node: &Node) -> (r: bool)
        ensures
            r == is_pinctrl_spec(node@),
    {
        if let Some(data) = node_prop_data(node, "compatible") {
            let ghost dv = datas_view(data@);
            let mut i: usize = 0;
            while i < data.len()
                invariant
                    i <= data.len(),
                    dv == datas_view(data@),
                    node@.prop_data("compatible"@) == Some(dv),
                    forall|j: int|
                        0 <= j < i ==> !(#[trigger] dv[j] is Str && contains(dv[j]->Str_0, "pinctrl"@)),
                decreases data.len() - i,
            {
                proof {
                    assert(dv[i as int] == data@[i as int]@);
                }
                if let Data::String(s) = &data[i] {
                    if str_contains(s.as_str(), "pinctrl") {
                        return true;
                    }
                }
                i = i + 1;
            }
        }
        if let Node::Existing { name, .. } = node {
            if str_eq(name.as_str(), "pinctrl") {
                return true;
            }
        }
        false
    }

    /// The pins described by the cells of `data`, four cells per pin.
    pub fn parse_rockchip_pins(data: &[Data]) -> (r: Vec<PinConfig>)
        ensures
            pins_view(r@) == rockchip_pins(all_cells(datas_view(data@))),
    {
        let all_cells = flatten_cells(data);
        let ghost cv = cells_view(all_cells@);
        let mut pins: Vec<PinConfig> = Vec::new();
        let mut pos: usize = 0;
        proof {
            assert(cv.skip(0) =~= cv);
            assert(pins_view(pins@) + rockchip_pins(cv.skip(0)) =~= rockchip_pins(cv));
        }
        while all_cells.len() - pos >= 4
            invariant
                pos <= all_cells.len(),
                cv == cells_view(all_cells@),
                pins_view(pins@) + rockchip_pins(cv.skip(pos as int)) == rockchip_pins(cv),
            decreases all_cells.len() - pos,
        {
            let bank = num_or_zero_exec(&all_cells[pos]);
            let pin = num_or_zero_exec(&all_cells[pos + 1]);
            let mux = num_or_zero_exec(&all_cells[pos + 2]);
            let config = match &all_cells[pos + 3] {
                Cell::Ref(s, _) => s.clone(),
                Cell::Num(n) => fmt_hex_prefixed(*n as u128),
            };
            let p = PinConfig { bank, pin, mux, config };
            let ghost old_pins = pins@;
            let ghost pv = p@;
            let ghost gp = p;
            pins.push(p);
            proof {
                let rest = cv.skip(pos as int);
                assert(rest.subrange(0, 4)[0] == all_cells@[pos as int]@);
                assert(rest.subrange(0, 4)[1] == all_cells@[pos + 1]@);
                assert(rest.subrange(0, 4)[2] == all_cells@[pos + 2]@);
                assert(rest.subrange(0, 4)[3] == all_cells@[pos + 3]@);
                assert(pv == pin_of(rest.subrange(0, 4)));
                assert(rest.skip(4) =~= cv.skip(pos + 4));
                lemma_map_push(old_pins, gp, |q: PinConfig| q@);
                assert(pins_view(pins@) =~= pins_view(old_pins).push(pv));
                assert(pins_view(pins@) + rockchip_pins(cv.skip(pos + 4)) =~= pins_view(old_pins)
                    + rockchip_pins(rest));
            }
            pos = pos + 4;
        }
        proof {
            let rest = cv.skip(pos as int);
            assert(rockchip_pins(rest) =~= Seq::<PinConfigV>::empty());
            assert(pins_view(pins@) + Seq::<PinConfigV>::empty() =~= pins_view(pins@));
        }
        pins
    }
}

/// The current device after visiting scheme node `node` (at `path`): its
/// `rockchip,pins`, when they describe any pin, become a new scheme.
pub open spec fn add_scheme(cur: Option<DeviceInfoV>, node: NodeV, path: Seq<char>) -> Option<
    DeviceInfoV,
> {
    match cur {
        Some(d) => match node.prop_data("rockchip,pins"@) {
            Some(data) => {
                let pins = rockchip_pins(all_cells(data));
                if pins.len() > 0 {
                    Some(
                        DeviceInfoV {
                            schemes: d.schemes.push(SchemeInfoV { name: path, pins }),
                            ..d
                        },
                    )
                } else {
                    Some(d)
                }
            },
            None => Some(d),
        },
        None => None,
    }
}

impl Visitor for PinctrlExtractor {
    open spec fn ready(s: PinctrlExtractorV) -> bool {
        true
    }

    proof fn lemma_ready_kept(s: PinctrlExtractorV, name: Seq<char>, node: NodeV) {
    }

    open spec fn spec_enter(s: PinctrlExtractorV, name: Seq<char>, node: NodeV) -> (
        PinctrlExtractorV,
        bool,
    ) {
        let path = s.path.push(name);
        let fp = full_path_of(path);
        if !s.in_pinctrl {
            if is_pinctrl_spec(node) {
                (PinctrlExtractorV { in_pinctrl: true, depth: 0, path, ..s }, true)
            } else {
                (PinctrlExtractorV { path, ..s }, true)
            }
        } else {
            let depth = if s.depth < usize::MAX {
                (s.depth + 1) as usize
            } else {
                s.depth
            };
            if depth == 1 {
                (
                    PinctrlExtractorV {
                        depth,
                        path,
                        current: Some(DeviceInfoV { alias: fp, schemes: Seq::empty() }),
                        ..s
                    },
                    true,
                )
            } else if depth == 2 {
                (
                    PinctrlExtractorV {
                        depth,
                        path,
                        current: add_scheme(s.current, node, fp),
                        ..s
                    },
                    true,
                )
            } else {
                (PinctrlExtractorV { depth, path, ..s }, true)
            }
        }
    }

    open spec fn spec_exit(s: PinctrlExtractorV, name: Seq<char>, node: NodeV) -> PinctrlExtractorV {
        let s1 = if s.in_pinctrl {
            if s.depth == 1 {
                PinctrlExtractorV {
                    current: None,
                    devices: match s.current {
                        Some(d) => if d.schemes.len() > 0 {
                            s.devices.push(d)
                        } else {
                            s.devices
                        },
                        None => s.devices,
                    },
                    ..s
                }
            } else if s.depth == 0 {
                PinctrlExtractorV { in_pinctrl: false, ..s }
            } else {
                s
            }
        } else {
            s
        };
        PinctrlExtractorV {
            depth: if s.in_pinctrl && s.depth > 0 {
                (s.depth - 1) as usize
            } else {
                s.depth
            },
            path: pop_seq(s.path),
            ..s1
        }
    }

    fn enter_node(&mut self, name: &str, node: &Node) -> (r: bool) {
        let ghost s = self@;
        self.path_stack.push(String::from_str(name));
        proof {
            assert(strings_view(self.path_stack@) =~= s.path.push(name@));
        }
        let full_path = full_path(&self.path_stack);
        // Entering the pin controller?
        if !self.in_pinctrl {
            if self.is_pinctrl_node(node) {
                self.in_pinctrl = true;
                self.depth_stack = 0;
            }
            return true;
        }
        // Inside the pin controller.
        if self.depth_stack < usize::MAX {
            self.depth_stack = self.depth_stack + 1;
        }
        if self.depth_stack == 1 {
            // A device node, e.g. `uart0`.
            let ghost d = DeviceInfoV { alias: full_path@, schemes: Seq::empty() };
            self.current_device = Some(DeviceInfo { alias: full_path, schemes: Vec::new() });
            proof {
                assert(self@.current == Some(d)) by {
                    assert(schemes_view(Seq::<SchemeInfo>::empty()) =~= Seq::<SchemeInfoV>::empty());
                }
            }
        } else if self.depth_stack == 2 {
            // A scheme node, e.g. `uart0-xfer`.
            let ghost cur0 = self@.current;
            if let Some(device) = &mut self.current_device {
                let ghost d0 = device@;
                if let Some(data) = node_prop_data(node, "rockchip,pins") {
                    let pins = Self::parse_rockchip_pins(data);
                    if pins.len() > 0 {
                        let ghost sc = SchemeInfo { name: full_path, pins };
                        let ghost old_schemes = device.schemes@;
                        device.schemes.push(SchemeInfo { name: full_path, pins });
                        proof {
                            lemma_map_push(old_schemes, sc, |x: SchemeInfo| x@);
                        }
                    }
                }
            }
            proof {
                assert(self@.current == add_scheme(cur0, node@, full_path@));
            }
        }
        true
    }

    fn exit_node(&mut self, _name: &str, _node: &Node) {
        let ghost s = self@;
        if self.in_pinctrl {
            if self.depth_stack == 1 {
                // Leaving a device node.
                if let Some(device) = self.current_device.take() {
                    if device.schemes.len() > 0 {
                        let ghost old_devs = self.devices@;
                        let ghost gd = device;
                        self.devices.push(device);
                        proof {
                            lemma_map_push(old_devs, gd, |x: DeviceInfo| x@);
                        }
                    }
                }
            } else if self.depth_stack == 0 {
                // Leaving the pin controller.
                self.in_pinctrl = false;
            }
            if self.depth_stack > 0 {
                self.depth_stack = self.depth_stack - 1;
            }
        }
        self.path_stack.pop();
        proof {
            if s.path.len() > 0 {
                assert(strings_view(self.path_stack@) =~= s.path.drop_last());
            }
        }
    }
}

/// Walking a subtree leaves the path as it was.
pub proof fn lemma_pinctrl_walk_restores(s: PinctrlExtractorV, name: Seq<char>, node: NodeV)
    ensures
        walk_spec::<PinctrlExtractor>(s, name, node).path == s.path,
{
    let p = |v: PinctrlExtractorV| (v.path,);
    assert forall|t: PinctrlExtractorV, u: PinctrlExtractorV, nm: Seq<char>, nd: NodeV|
        #![trigger PinctrlExtractor::spec_enter(t, nm, nd), PinctrlExtractor::spec_exit(u, nm, nd)]
        p(u) == p(PinctrlExtractor::spec_enter(t, nm, nd).0) implies p(PinctrlExtractor::spec_exit(u, nm, nd)) == p(t) by {
        let e = PinctrlExtractor::spec_enter(t, nm, nd).0;
        assert(e.path.drop_last() =~= t.path);
    }
    lemma_walk_keeps::<PinctrlExtractor, (Seq<Seq<char>>,)>(p, s, name, node);
}

// ---------------------------------------------------------------------------
// Reading pins
// ---------------------------------------------------------------------------

proof fn lemma_all_cells_concat(d1: Seq<DataV>, d2: Seq<DataV>)
    ensures
        all_cells(d1 + d2) == all_cells(d1) + all_cells(d2),
    decreases d2.len(),
{
    if d2.len() == 0 {
        assert(d1 + d2 =~= d1);
        assert(all_cells(d1) + all_cells(d2) =~= all_cells(d1));
    } else {
        lemma_all_cells_concat(d1, d2.drop_last());
        assert((d1 + d2).drop_last() =~= d1 + d2.drop_last());
        assert((d1 + d2).last() == d2.last());
        let tail = match d2.last() {
            DataV::Cells(_, c) => c,
            _ => Seq::<CellV>::empty(),
        };
        assert(all_cells(d1) + all_cells(d2.drop_last()) + tail =~= all_cells(d1) + (all_cells(
            d2.drop_last(),
        ) + tail));
    }
}

proof fn lemma_rockchip_cells(a: Seq<CellV>, b: Seq<CellV>)
    requires
        a.len() % 4 == 0,
    ensures
        rockchip_pins(a + b) == rockchip_pins(a) + rockchip_pins(b),
        rockchip_pins(a).len() == a.len() / 4,
    decreases a.len(),
{
    if a.len() == 0 {
        assert(a + b =~= b);
        assert(rockchip_pins(a) + rockchip_pins(b) =~= rockchip_pins(b));
    } else {
        lemma_rockchip_cells(a.skip(4), b);
        assert((a + b).subrange(0, 4) =~= a.subrange(0, 4));
        assert((a + b).skip(4) =~= a.skip(4) + b);
        assert(seq![pin_of(a.subrange(0, 4))] + (rockchip_pins(a.skip(4)) + rockchip_pins(b))
            =~= seq![pin_of(a.subrange(0, 4))] + rockchip_pins(a.skip(4)) + rockchip_pins(b));
    }
}

proof fn lemma_rockchip_count(c: Seq<CellV>)
    ensures
        rockchip_pins(c).len() == c.len() / 4,
    decreases c.len(),
{
    if c.len() >= 4 {
        lemma_rockchip_count(c.skip(4));
    }
}

/// Reading pins gives one pin per four cells (a trailing partial group
/// gives none), and pieces whose cells come in whole groups of four read
/// the same apart as together.
pub proof fn lemma_rockchip_pins_concat(d1: Seq<DataV>, d2: Seq<DataV>)
    ensures
        rockchip_pins(all_cells(d1)).len() == all_cells(d1).len() / 4,
        all_cells(d1).len() % 4 == 0 ==> rockchip_pins(all_cells(d1 + d2)) == rockchip_pins(
            all_cells(d1),
        ) + rockchip_pins(all_cells(d2)),
{
    lemma_rockchip_count(all_cells(d1));
    lemma_all_cells_concat(d1, d2);
    if all_cells(d1).len() % 4 == 0 {
        lemma_rockchip_cells(all_cells(d1), all_cells(d2));
    }
}

// ---------------------------------------------------------------------------
// What a whole walk finds
// ---------------------------------------------------------------------------

/// The schemes of the nodes `children[i..]` (below `path`), added in turn to
/// the device `cur`.
pub open spec fn schemes_fold(
    cur: Option<DeviceInfoV>,
    path: Seq<Seq<char>>,
    children: Seq<(Seq<char>, NodeV)>,
    i: int,
) -> Option<DeviceInfoV>
    decreases children.len() - i,
{
    if 0 <= i < children.len() {
        schemes_fold(
            add_scheme(cur, children[i].1, full_path_of(path.push(children[i].0))),
            path,
            children,
            i + 1,
        )
    } else {
        cur
    }
}

/// The device a child of a pin controller describes (named `name`, below
/// `path`): its path and the schemes of its own children; nothing when it
/// has no scheme.
pub open spec fn device_of(path: Seq<Seq<char>>, name: Seq<char>, node: NodeV) -> Seq<DeviceInfoV> {
    let path2 = path.push(name);
    let d = DeviceInfoV { alias: full_path_of(path2), schemes: Seq::empty() };
    let d2 = match node {
        NodeV::Existing { children, .. } => schemes_fold(Some(d), path2, children, 0),
        NodeV::Deleted { .. } => Some(d),
    };
    match d2 {
        Some(x) => if x.schemes.len() > 0 {
            seq![x]
        } else {
            Seq::empty()
        },
        None => Seq::empty(),
    }
}

/// The devices of the children `children[i..]` of a pin controller.
pub open spec fn ctrl_devices(path: Seq<Seq<char>>, children: Seq<(Seq<char>, NodeV)>, i: int) -> Seq<
    DeviceInfoV,
>
    decreases children.len() - i,
{
    if 0 <= i < children.len() {
        device_of(path, children[i].0, children[i].1) + ctrl_devices(path, children, i + 1)
    } else {
        Seq::empty()
    }
}

/// The devices found under `node` (named `name`, below `path`) outside any
/// pin controller: those of each pin controller met first on the way down,
/// in depth-first order.
pub open spec fn pin_devices(path: Seq<Seq<char>>, name: Seq<char>, node: NodeV) -> Seq<DeviceInfoV>
    decreases node, 0nat,
{
    let path2 = path.push(name);
    match node {
        NodeV::Existing { children, .. } => if is_pinctrl_spec(node) {
            ctrl_devices(path2, children, 0)
        } else {
            children_devices(path2, children, 0)
        },
        NodeV::Deleted { .. } => Seq::empty(),
    }
}

/// `pin_devices` of `children[i..]`, concatenated.
pub open spec fn children_devices(path: Seq<Seq<char>>, children: Seq<(Seq<char>, NodeV)>, i: int) -> Seq<
    DeviceInfoV,
>
    decreases children, children.len() - i,
{
    if 0 <= i < children.len() {
        pin_devices(path, children[i].0, children[i].1) + children_devices(path, children, i + 1)
    } else {
        Seq::empty()
    }
}

/// The parts of the state a walk below the scheme level keeps.
pub open spec fn pin_frame(s: PinctrlExtractorV) -> (bool, usize, Seq<Seq<char>>, Option<DeviceInfoV>, Seq<DeviceInfoV>) {
    (s.in_pinctrl, s.depth, s.path, s.current, s.devices)
}

proof fn lemma_pin_deep(s: PinctrlExtractorV, name: Seq<char>, n: NodeV)
    requires
        s.in_pinctrl,
        s.depth >= 2,
        s.depth + height(n) < usize::MAX,
    ensures
        pin_frame(walk_spec::<PinctrlExtractor>(s, name, n)) == pin_frame(s),
    decreases n, 0nat,
{
    lemma_pinctrl_walk_restores(s, name, n);
    let s1 = PinctrlExtractor::spec_enter(s, name, n).0;
    if let NodeV::Existing { children, .. } = n {
        lemma_pin_deep_children(s1, children, 0);
    }
}

proof fn lemma_pin_deep_children(s: PinctrlExtractorV, children: Seq<(Seq<char>, NodeV)>, i: int)
    requires
        s.in_pinctrl,
        s.depth >= 2,
        s.depth + children_height(children, i) < usize::MAX,
    ensures
        pin_frame(walk_children::<PinctrlExtractor>(s, children, i)) == pin_frame(s),
    decreases children, children.len() - i,
{
    if 0 <= i < children.len() {
        lemma_pin_deep(s, children[i].0, children[i].1);
        lemma_pin_deep_children(walk_spec::<PinctrlExtractor>(s, children[i].0, children[i].1), children, i + 1);
    }
}

proof fn lemma_pin_scheme(s: PinctrlExtractorV, name: Seq<char>, n: NodeV)
    requires
        s.in_pinctrl,
        s.depth == 1,
        height(n) + 2 < usize::MAX,
    ensures
        walk_spec::<PinctrlExtractor>(s, name, n) == (PinctrlExtractorV {
            current: add_scheme(s.current, n, full_path_of(s.path.push(name))),
            ..s
        }),
    decreases n, 0nat,
{
    lemma_pinctrl_walk_restores(s, name, n);
    let s1 = PinctrlExtractor::spec_enter(s, name, n).0;
    if let NodeV::Existing { children, .. } = n {
        lemma_pin_deep_children(s1, children, 0);
    }
}

proof fn lemma_pin_schemes(s: PinctrlExtractorV, children: Seq<(Seq<char>, NodeV)>, i: int)
    requires
        s.in_pinctrl,
        s.depth == 1,
        children_height(children, i) + 2 < usize::MAX,
    ensures
        walk_children::<PinctrlExtractor>(s, children, i) == (PinctrlExtractorV {
            current: schemes_fold(s.current, s.path, children, i),
            ..s
        }),
    decreases children, children.len() - i,
{
    if 0 <= i < children.len() {
        lemma_pin_scheme(s, children[i].0, children[i].1);
        let s1 = walk_spec::<PinctrlExtractor>(s, children[i].0, children[i].1);
        lemma_pin_schemes(s1, children, i + 1);
    }
}

proof fn lemma_pin_device(s: PinctrlExtractorV, name: Seq<char>, n: NodeV)
    requires
        s.in_pinctrl,
        s.depth == 0,
        height(n) + 2 < usize::MAX,
    ensures
        walk_spec::<PinctrlExtractor>(s, name, n) == (PinctrlExtractorV {
            current: None,
            devices: s.devices + device_of(s.path, name, n),
            ..s
        }),
    decreases n, 0nat,
{
    lemma_pinctrl_walk_restores(s, name, n);
    let s1 = PinctrlExtractor::spec_enter(s, name, n).0;
    let w = walk_spec::<PinctrlExtractor>(s, name, n);
    if let NodeV::Existing { children, .. } = n {
        lemma_pin_schemes(s1, children, 0);
    }
    assert(w.devices =~= s.devices + device_of(s.path, name, n));
}

proof fn lemma_pin_devices(s: PinctrlExtractorV, children: Seq<(Seq<char>, NodeV)>, i: int)
    requires
        s.in_pinctrl,
        s.depth == 0,
        children_height(children, i) + 2 < usize::MAX,
    ensures
        walk_children::<PinctrlExtractor>(s, children, i).in_pinctrl,
        walk_children::<PinctrlExtractor>(s, children, i).depth == 0,
        walk_children::<PinctrlExtractor>(s, children, i).path == s.path,
        walk_children::<PinctrlExtractor>(s, children, i).devices == s.devices + ctrl_devices(
            s.path,
            children,
            i,
        ),
    decreases children, children.len() - i,
{
    if 0 <= i < children.len() {
        lemma_pin_device(s, children[i].0, children[i].1);
        let s1 = walk_spec::<PinctrlExtractor>(s, children[i].0, children[i].1);
        lemma_pin_devices(s1, children, i + 1);
        let a = device_of(s.path, children[i].0, children[i].1);
        let b = ctrl_devices(s.path, children, i + 1);
        assert(s.devices + a + b =~= s.devices + (a + b));
    } else {
        assert(s.devices + Seq::<DeviceInfoV>::empty() =~= s.devices);
    }
}

proof fn lemma_pin_outside(s: PinctrlExtractorV, name: Seq<char>, n: NodeV)
    requires
        !s.in_pinctrl,
        s.depth == 0,
        height(n) + 2 < usize::MAX,
    ensures
        !walk_spec::<PinctrlExtractor>(s, name, n).in_pinctrl,
        walk_spec::<PinctrlExtractor>(s, name, n).depth == 0,
        walk_spec::<PinctrlExtractor>(s, name, n).path == s.path,
        walk_spec::<PinctrlExtractor>(s, name, n).devices == s.devices + pin_devices(
            s.path,
            name,
            n,
        ),
    decreases n, 0nat,
{
    lemma_pinctrl_walk_restores(s, name, n);
    let s1 = PinctrlExtractor::spec_enter(s, name, n).0;
    if let NodeV::Existing { children, .. } = n {
        if is_pinctrl_spec(n) {
            lemma_pin_devices(s1, children, 0);
        } else {
            lemma_pin_outside_children(s1, children, 0);
        }
    } else {
        assert(s.devices + Seq::<DeviceInfoV>::empty() =~= s.devices);
    }
}

proof fn lemma_pin_outside_children(s: PinctrlExtractorV, children: Seq<(Seq<char>, NodeV)>, i: int)
    requires
        !s.in_pinctrl,
        s.depth == 0,
        children_height(children, i) + 2 < usize::MAX,
    ensures
        !walk_children::<PinctrlExtractor>(s, children, i).in_pinctrl,
        walk_children::<PinctrlExtractor>(s, children, i).depth == 0,
        walk_children::<PinctrlExtractor>(s, children, i).path == s.path,
        walk_children::<PinctrlExtractor>(s, children, i).devices == s.devices + children_devices(
            s.path,
            children,
            i,
        ),
    decreases children, children.len() - i,
{
    if 0 <= i < children.len() {
        lemma_pin_outside(s, children[i].0, children[i].1);
        let s1 = walk_spec::<PinctrlExtractor>(s, children[i].0, children[i].1);
        lemma_pin_outside_children(s1, children, i + 1);
        let a = pin_devices(s.path, children[i].0, children[i].1);
        let b = children_devices(s.path, children, i + 1);
        assert(s.devices + a + b =~= s.devices + (a + b));
    } else {
        assert(s.devices + Seq::<DeviceInfoV>::empty() =~= s.devices);
    }
}

/// A walk of a new extractor over `n` (named `name`) collects the devices
/// of every pin controller met first on the way down (`pin_devices`): each
/// child of the controller with its schemes (its own children with pins);
/// this holds where the depth count cannot overflow.
pub proof fn lemma_pinctrl_walk(name: Seq<char>, n: NodeV)
    requires
        height(n) + 2 < usize::MAX,
    ensures
        walk_spec::<PinctrlExtractor>(
            PinctrlExtractorV {
                in_pinctrl: false,
                depth: 0,
                path: Seq::empty(),
                current: None,
                devices: Seq::empty(),
            },
            name,
            n,
        ).devices == pin_devices(Seq::empty(), name, n),
{
    let s = PinctrlExtractorV {
        in_pinctrl: false,
        depth: 0,
        path: Seq::empty(),
        current: None,
        devices: Seq::empty(),
    };
    lemma_pin_outside(s, name, n);
    let t = pin_devices(Seq::empty(), name, n);
    assert(Seq::<DeviceInfoV>::empty() + t =~= t);
}

// ---------------------------------------------------------------------------
// Schemes of a device
// ---------------------------------------------------------------------------

/// The pins `node` describes in `rockchip,pins` (none without it).
pub open spec fn node_pins(node: NodeV) -> Seq<PinConfigV> {
    match node.prop_data("rockchip,pins"@) {
        Some(data) => rockchip_pins(all_cells(data)),
        None => Seq::empty(),
    }
}

/// The scheme nodes among `children[i..]`: those describing at least one pin.
pub open spec fn scheme_count(children: Seq<(Seq<char>, NodeV)>, i: int) -> nat
    decreases children.len() - i,
{
    if 0 <= i < children.len() {
        (if node_pins(children[i].1).len() > 0 {
            1nat
        } else {
            0nat
        }) + scheme_count(children, i + 1)
    } else {
        0
    }
}

/// Adding a scheme node to a device appends one scheme, named by the node's
/// path and holding its pins, after those recorded before (whatever they
/// are); a node without pins adds nothing.
pub proof fn lemma_add_scheme(d: DeviceInfoV, node: NodeV, path: Seq<char>)
    ensures
        add_scheme(Some(d), node, path) is Some,
        add_scheme(Some(d), node, path)->Some_0.alias == d.alias,
        add_scheme(Some(d), node, path)->Some_0.schemes == if node_pins(node).len() > 0 {
            d.schemes.push(SchemeInfoV { name: path, pins: node_pins(node) })
        } else {
            d.schemes
        },
{
}

/// The schemes recorded for a device are those recorded before, followed by
/// one for each of its children that describes at least one pin, in order:
/// their number grows by exactly the number of such children.
pub proof fn lemma_schemes_fold(
    d: DeviceInfoV,
    path: Seq<Seq<char>>,
    children: Seq<(Seq<char>, NodeV)>,
    i: int,
)
    requires
        0 <= i <= children.len(),
    ensures
        schemes_fold(Some(d), path, children, i) is Some,
        schemes_fold(Some(d), path, children, i)->Some_0.alias == d.alias,
        d.schemes.is_prefix_of(schemes_fold(Some(d), path, children, i)->Some_0.schemes),
        schemes_fold(Some(d), path, children, i)->Some_0.schemes.len() == d.schemes.len()
            + scheme_count(children, i),
    decreases children.len() - i,
{
    if i < children.len() {
        let p = full_path_of(path.push(children[i].0));
        lemma_add_scheme(d, children[i].1, p);
        let d1 = add_scheme(Some(d), children[i].1, p)->Some_0;
        lemma_schemes_fold(d1, path, children, i + 1);
        let r = schemes_fold(Some(d1), path, children, i + 1)->Some_0.schemes;
        assert(d.schemes =~= r.subrange(0, d.schemes.len() as int)) by {
            assert(d.schemes =~= d1.schemes.subrange(0, d.schemes.len() as int));
        }
    } else {
        assert(d.schemes =~= d.schemes.subrange(0, d.schemes.len() as int));
    }
}

} // verus!
