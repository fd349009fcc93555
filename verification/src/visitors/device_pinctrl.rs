//! Extraction of which devices use which pins: through `pinctrl-N`
//! references to Rockchip pin groups, and through GPIO properties.

use crate::dts::tree::{
    all_cells, cells_view, children_view, datas_view, find_labelled, lemma_children_view,
    node_at, node_prop_data, path_components, prop_entries, prop_map_get_index, prop_map_len,
    Cell, CellV, DTInfo, Data, DataV, Node, NodeV, Property, PropertyV,
};
use crate::strmap::StrMap;
use crate::text::{
    concat, dec_digits, ends_with, fmt_dec, fmt_hex_prefixed, hex_prefixed, parse_u32,
    parse_u32_spec, replace_char, starts_with, str_all_digits, str_chars, str_ends_with, str_eq,
    str_replace_char, str_starts_with, string_from_chars, strings_view, all_digits,
};
use crate::visitors::interrupts::child_path;
use crate::visitors::pinctrl::{pins_view, rockchip_pins, PinConfig, PinConfigV, PinctrlExtractor};
use crate::visitors::reg_extractor::pop_seq;
use crate::visitors::{
    full_path, full_path_of, lemma_walk_appends, lemma_walk_keeps, walk_children, walk_spec,
    Visitor,
};
use vstd::prelude::*;

verus! {

/// Information about a device pin usage.
#[derive(Debug, Clone)]
pub struct DevicePin {
    pub device_name: String,
    pub pinctrl_name: String,
    pub config: PinConfig,
}

/// A device pin usage as seen by specifications.
pub struct DevicePinV {
    pub device_name: Seq<char>,
    pub pinctrl_name: Seq<char>,
    pub config: PinConfigV,
}

impl View for DevicePin {
    type V = DevicePinV;

    open spec fn view(&self) -> DevicePinV {
        DevicePinV {
            device_name: self.device_name@,
            pinctrl_name: self.pinctrl_name@,
            config: self.config@,
        }
    }
}

/// The views of a list of device pins.
pub open spec fn device_pins_view(v: Seq<DevicePin>) -> Seq<DevicePinV> {
    v.map_values(|p: DevicePin| p@)
}

// ---------------------------------------------------------------------------
// Specifications
// ---------------------------------------------------------------------------

/// Each label under `node` (at `path`) mapped to the path of its node, depth first.
pub open spec fn label_paths(m: Map<Seq<char>, Seq<char>>, node: NodeV, path: Seq<char>) -> Map<
    Seq<char>,
    Seq<char>,
>
    decreases node, 0nat,
{
    match node {
        NodeV::Existing { labels, children, .. } => label_paths_children(
            crate::visitors::dependency::map_labels(m, labels, path),
            children,
            path,
            0,
        ),
        NodeV::Deleted { .. } => m,
    }
}

/// `label_paths` over `children[i..]`.
pub open spec fn label_paths_children(
    m: Map<Seq<char>, Seq<char>>,
    children: Seq<(Seq<char>, NodeV)>,
    path: Seq<char>,
    i: int,
) -> Map<Seq<char>, Seq<char>>
    decreases children, children.len() - i,
{
    if 0 <= i < children.len() {
        label_paths_children(
            label_paths(m, children[i].1, child_path(path, children[i].0)),
            children,
            path,
            i + 1,
        )
    } else {
        m
    }
}

/// Each reference in `data` mapped to `bank`.
pub open spec fn bank_refs(m: Map<Seq<char>, u32>, data: Seq<DataV>, bank: u32) -> Map<Seq<char>, u32>
    decreases data.len(),
{
    if data.len() == 0 {
        m
    } else {
        let prev = bank_refs(m, data.drop_last(), bank);
        match data.last() {
            DataV::Reference(l, _) => prev.insert(l, bank),
            _ => prev,
        }
    }
}

/// The GPIO banks named by `/aliases` properties `gpio<N> = &label`.
pub open spec fn gpio_banks_spec(m: Map<Seq<char>, u32>, props: Seq<(Seq<char>, PropertyV)>) -> Map<
    Seq<char>,
    u32,
>
    decreases props.len(),
{
    if props.len() == 0 {
        m
    } else {
        let prev = gpio_banks_spec(m, props.drop_last());
        let (name, prop) = props.last();
        if starts_with(name, "gpio"@) {
            match parse_u32_spec(name.skip(4)) {
                Some(bank) => match prop {
                    PropertyV::Existing { val: Some(data), .. } => bank_refs(prev, data, bank),
                    _ => prev,
                },
                None => prev,
            }
        } else {
            prev
        }
    }
}

/// The GPIO banks of a tree.
pub open spec fn tree_gpio_banks(root: NodeV) -> Map<Seq<char>, u32> {
    match node_at(root, path_components("/aliases"@)) {
        Some(NodeV::Existing { props, .. }) => gpio_banks_spec(Map::empty(), props),
        _ => Map::empty(),
    }
}

/// The device pins `pnode`'s `rockchip,pins` describe, for `device` under `group`.
pub open spec fn group_pins(pnode: NodeV, device: Seq<char>, group: Seq<char>) -> Seq<DevicePinV> {
    match pnode.prop_data("rockchip,pins"@) {
        Some(d) => tag_pins(rockchip_pins(all_cells(d)), device, group),
        None => Seq::empty(),
    }
}

/// Each pin configuration, as used by `device` under `group`.
pub open spec fn tag_pins(pins: Seq<PinConfigV>, device: Seq<char>, group: Seq<char>) -> Seq<DevicePinV> {
    pins.map_values(|c: PinConfigV| DevicePinV { device_name: device, pinctrl_name: group, config: c })
}

/// The device pins of a `pinctrl-N` reference to `label`.
pub open spec fn ref_pins(
    root: NodeV,
    lm: Map<Seq<char>, Seq<char>>,
    device: Seq<char>,
    label: Seq<char>,
) -> Seq<DevicePinV> {
    match find_labelled(root, label) {
        Some(pnode) => group_pins(
            pnode,
            device,
            if lm.contains_key(label) {
                lm[label]
            } else {
                label
            },
        ),
        None => Seq::empty(),
    }
}

/// The device pins of the references among `cells`.
pub open spec fn cells_ref_pins(
    root: NodeV,
    lm: Map<Seq<char>, Seq<char>>,
    device: Seq<char>,
    cells: Seq<CellV>,
) -> Seq<DevicePinV>
    decreases cells.len(),
{
    if cells.len() == 0 {
        Seq::empty()
    } else {
        cells_ref_pins(root, lm, device, cells.drop_last()) + match cells.last() {
            CellV::Ref(l, _) => ref_pins(root, lm, device, l),
            CellV::Num(_) => Seq::empty(),
        }
    }
}

/// The device pins of the references in a `pinctrl-N` value.
pub open spec fn data_ref_pins(
    root: NodeV,
    lm: Map<Seq<char>, Seq<char>>,
    device: Seq<char>,
    data: Seq<DataV>,
) -> Seq<DevicePinV>
    decreases data.len(),
{
    if data.len() == 0 {
        Seq::empty()
    } else {
        data_ref_pins(root, lm, device, data.drop_last()) + match data.last() {
            DataV::Cells(_, c) => cells_ref_pins(root, lm, device, c),
            DataV::Reference(l, _) => ref_pins(root, lm, device, l),
            _ => Seq::empty(),
        }
    }
}

/// A GPIO pin in mode 0.
pub open spec fn gpio_pin(device: Seq<char>, prop: Seq<char>, bank: u32, pin: u64, flags: Seq<char>) -> DevicePinV {
    DevicePinV {
        device_name: device,
        pinctrl_name: prop,
        config: PinConfigV { bank, pin: pin as u32, mux: 0, config: flags },
    }
}

/// The GPIO pins of `cells` from position `i`: a reference to a GPIO bank,
/// then the pin number, then optional flags (`0x0` when the next cell is
/// missing or not a number); cells after a matched reference are consumed
/// whatever they hold.
pub open spec fn gpio_scan(
    banks: Map<Seq<char>, u32>,
    device: Seq<char>,
    prop: Seq<char>,
    cells: Seq<CellV>,
    i: int,
) -> Seq<DevicePinV>
    decreases cells.len() - i,
{
    if i < 0 || i >= cells.len() {
        Seq::empty()
    } else {
        match cells[i] {
            CellV::Ref(l, _) => if banks.contains_key(l) {
                if i + 1 < cells.len() {
                    match cells[i + 1] {
                        CellV::Num(pin) => if i + 2 < cells.len() {
                            let flags = match cells[i + 2] {
                                CellV::Num(f) => hex_prefixed(f as nat),
                                CellV::Ref(..) => seq!['0', 'x', '0'],
                            };
                            seq![gpio_pin(device, prop, banks[l], pin, flags)] + gpio_scan(
                                banks,
                                device,
                                prop,
                                cells,
                                i + 3,
                            )
                        } else {
                            seq![gpio_pin(device, prop, banks[l], pin, seq!['0', 'x', '0'])]
                        },
                        CellV::Ref(..) => gpio_scan(banks, device, prop, cells, i + 2),
                    }
                } else {
                    Seq::empty()
                }
            } else {
                gpio_scan(banks, device, prop, cells, i + 1)
            },
            CellV::Num(_) => gpio_scan(banks, device, prop, cells, i + 1),
        }
    }
}

/// The GPIO pins of every `< ... >` piece of a GPIO property.
pub open spec fn data_gpio_pins(
    banks: Map<Seq<char>, u32>,
    device: Seq<char>,
    prop: Seq<char>,
    data: Seq<DataV>,
) -> Seq<DevicePinV>
    decreases data.len(),
{
    if data.len() == 0 {
        Seq::empty()
    } else {
        data_gpio_pins(banks, device, prop, data.drop_last()) + match data.last() {
            DataV::Cells(_, c) => gpio_scan(banks, device, prop, c, 0),
            _ => Seq::empty(),
        }
    }
}

/// Whether a property name is `pinctrl-` followed by decimal digits only.
pub open spec fn is_pinctrl_prop(name: Seq<char>) -> bool {
    starts_with(name, "pinctrl-"@) && all_digits(name.skip(8))
}

/// Whether a property name ends with `gpios` or `gpio`.
pub open spec fn is_gpio_prop(name: Seq<char>) -> bool {
    ends_with(name, "gpios"@) || ends_with(name, "gpio"@)
}

/// The device pins one property of device `device` yields.
pub open spec fn prop_pins(
    root: NodeV,
    banks: Map<Seq<char>, u32>,
    lm: Map<Seq<char>, Seq<char>>,
    device: Seq<char>,
    name: Seq<char>,
    prop: PropertyV,
) -> Seq<DevicePinV> {
    let data = match prop {
        PropertyV::Existing { val: Some(d), .. } => Some(d),
        _ => None,
    };
    (if is_pinctrl_prop(name) {
        match data {
            Some(d) => data_ref_pins(root, lm, device, d),
            None => Seq::empty(),
        }
    } else {
        Seq::empty()
    }) + (if is_gpio_prop(name) {
        match data {
            Some(d) => data_gpio_pins(banks, device, name, d),
            None => Seq::empty(),
        }
    } else {
        Seq::empty()
    })
}

/// The device pins of a property list, in order.
pub open spec fn props_pins(
    root: NodeV,
    banks: Map<Seq<char>, u32>,
    lm: Map<Seq<char>, Seq<char>>,
    device: Seq<char>,
    props: Seq<(Seq<char>, PropertyV)>,
) -> Seq<DevicePinV>
    decreases props.len(),
{
    if props.len() == 0 {
        Seq::empty()
    } else {
        props_pins(root, banks, lm, device, props.drop_last()) + prop_pins(
            root,
            banks,
            lm,
            device,
            props.last().0,
            props.last().1,
        )
    }
}

/// The output lines `device,group,bank,pin,mux,config`, with `,` in the
/// group name replaced by `_`.
pub open spec fn device_pins_text(pins: Seq<DevicePinV>) -> Seq<char>
    decreases pins.len(),
{
    if pins.len() == 0 {
        Seq::empty()
    } else {
        let p = pins.last();
        device_pins_text(pins.drop_last()) + p.device_name + seq![','] + replace_char(
            p.pinctrl_name,
            ',',
            seq!['_'],
        ) + seq![','] + dec_digits(p.config.bank as nat) + seq![','] + dec_digits(
            p.config.pin as nat,
        ) + seq![','] + dec_digits(p.config.mux as nat) + seq![','] + p.config.config + seq!['\n']
    }
}

/// The state of a `DevicePinctrlExtractor` as seen by specifications.
pub struct DevicePinctrlExtractorV {
    pub root: NodeV,
    pub pins: Seq<DevicePinV>,
    pub gpio_banks: Map<Seq<char>, u32>,
    pub path: Seq<Seq<char>>,
    pub label_map: Map<Seq<char>, Seq<char>>,
}

/// A visitor that extracts device pinctrl usage.
pub struct DevicePinctrlExtractor<'a> {
    tree: &'a DTInfo,
    pub pins: Vec<DevicePin>,
    // label -> GPIO bank number
    gpio_banks: StrMap<u32>,
    path_stack: Vec<String>,
    // label -> full path
    label_map: StrMap<String>,
}

impl<'a> View for DevicePinctrlExtractor<'a> {
    type V = DevicePinctrlExtractorV;

    closed spec fn view(&self) -> DevicePinctrlExtractorV {
        DevicePinctrlExtractorV {
            root: self.tree.root@,
            pins: device_pins_view(self.pins@),
            gpio_banks: self.gpio_banks@,
            path: strings_view(self.path_stack@),
            label_map: crate::visitors::dependency::paths_view(self.label_map@),
        }
    }
}

proof fn lemma_map_push<A, B>(s: Seq<A>, x: A, f: spec_fn(A) -> B)
    ensures
        s.push(x).map_values(f) == s.map_values(f).push(f(x)),
{
    assert(s.push(x).map_values(f) =~= s.map_values(f).push(f(x)));
}

fn str_skip(s: &str, n: usize) -> (r: String)
    ensures
        r@ == (if n <= s@.len() {
            s@.skip(n as int)
        } else {
            Seq::empty()
        }),
{
    let v = str_chars(s);
    if n > v.len() {
        return String::new();
    }
    let mut out: Vec<char> = Vec::new();
    let mut i = n;
    while i < v.len()
        invariant
            n <= i <= v.len(),
            v@ == s@,
            out@ == v@.subrange(n as int, i as int),
        decreases v.len() - i,
    {
        out.push(v[i]);
        proof {
            assert(out@ =~= v@.subrange(n as int, i + 1));
        }
        i = i + 1;
    }
    proof {
        assert(v@.subrange(n as int, v.len() as int) =~= s@.skip(n as int));
    }
    string_from_chars(out.as_slice())
}

impl<'a> DevicePinctrlExtractor<'a> {
    /// The pin uses found so far.
    pub fn pins(&self) -> (r: &Vec<DevicePin>)
        ensures
            device_pins_view(r@) == self@.pins,
    {
        &self.pins
    }

    pub fn new(tree: &'a DTInfo) -> (r: Self)
        ensures
            r@ == (DevicePinctrlExtractorV {
                root: tree.root@,
                pins: Seq::empty(),
                gpio_banks: tree_gpio_banks(tree.root@),
                path: Seq::empty(),
                label_map: label_paths(Map::empty(), tree.root@, seq!['/']),
            }),
    {
        proof {
            reveal_strlit("/");
            reveal_strlit("gpio");
            assert("/"@ =~= seq!['/']);
        }
        let mut label_map: StrMap<String> = StrMap::new();
        proof {
            assert(crate::visitors::dependency::paths_view(label_map@) =~= Map::<
                Seq<char>,
                Seq<char>,
            >::empty());
        }
        Self::build_label_map(&tree.root, "/", &mut label_map);
        let mut gpio_banks: StrMap<u32> = StrMap::new();
        // `gpio<N> = &label` entries of `/aliases` give the bank numbers.
        if let Some(aliases) = tree.get_node_by_path("/aliases") {
            if let Node::Existing { proplist, .. } = aliases {
                let n = prop_map_len(proplist);
                let ghost props = prop_entries(*proplist);
                let mut k: usize = 0;
                while k < n
                    invariant
                        k <= n,
                        n == props.len(),
                        props == prop_entries(*proplist),
                        gpio_banks@ == gpio_banks_spec(Map::empty(), props.subrange(0, k as int)),
                    decreases n - k,
                {
                    let (name, prop) = prop_map_get_index(proplist, k);
                    proof {
                        assert(props.subrange(0, k + 1).drop_last() =~= props.subrange(0, k as int));
                        assert(props.subrange(0, k + 1).last() == props[k as int]);
                        reveal_strlit("gpio");
                    }
                    if str_starts_with(name.as_str(), "gpio") {
                        let suffix = str_skip(name.as_str(), 4);
                        if let Some(bank_id) = parse_u32(suffix.as_str()) {
                            if let Property::Existing { val: Some(data), .. } = prop {
                                let ghost dv = datas_view(data@);
                                let ghost m0 = gpio_banks@;
                                let mut j: usize = 0;
                                while j < data.len()
                                    invariant
                                        j <= data.len(),
                                        dv == datas_view(data@),
                                        gpio_banks@ == bank_refs(m0, dv.subrange(0, j as int), bank_id),
                                    decreases data.len() - j,
                                {
                                    proof {
                                        assert(dv.subrange(0, j + 1).drop_last() =~= dv.subrange(
                                            0,
                                            j as int,
                                        ));
                                        assert(dv.subrange(0, j + 1).last() == data@[j as int]@);
                                    }
                                    if let Data::Reference(label, _) = &data[j] {
                                        gpio_banks.insert(label.clone(), bank_id);
                                    }
                                    j = j + 1;
                                }
                                proof {
                                    assert(dv.subrange(0, data.len() as int) =~= dv);
                                }
                            }
                        }
                    }
                    k = k + 1;
                }
                proof {
                    assert(props.subrange(0, n as int) =~= props);
                }
            }
        }
        let r = Self { tree, pins: Vec::new(), gpio_banks, path_stack: Vec::new(), label_map };
        proof {
            assert(r@.pins =~= Seq::<DevicePinV>::empty());
            assert(r@.path =~= Seq::<Seq<char>>::empty());
            assert(r@.gpio_banks =~= tree_gpio_banks(tree.root@));
        }
        r
    }

    fn build_label_map(node: &Node, current_path: &str, map: &mut StrMap<String>)
        ensures
            crate::visitors::dependency::paths_view(final(map)@) == label_paths(
                crate::visitors::dependency::paths_view(old(map)@),
                node@,
                current_path@,
            ),
        decreases node,
    {
        if let Node::Existing { labels, children, .. } = node {
            let ghost m0 = crate::visitors::dependency::paths_view(map@);
            let mut i: usize = 0;
            while i < labels.len()
                invariant
                    i <= labels.len(),
                    crate::visitors::dependency::paths_view(map@)
                        == crate::visitors::dependency::map_labels(
                        m0,
                        strings_view(labels@).subrange(0, i as int),
                        current_path@,
                    ),
                decreases labels.len() - i,
            {
                let ghost before = map@;
                let v = String::from_str(current_path);
                let ghost gv = v;
                map.insert(labels[i].clone(), v);
                proof {
                    assert(crate::visitors::dependency::paths_view(
                        before.insert(labels@[i as int]@, gv),
                    ) =~= crate::visitors::dependency::paths_view(before).insert(
                        labels@[i as int]@,
                        gv@,
                    ));
                    assert(strings_view(labels@).subrange(0, i + 1).drop_last() =~= strings_view(
                        labels@,
                    ).subrange(0, i as int));
                    assert(strings_view(labels@).subrange(0, i + 1).last() == labels@[i as int]@);
                }
                i = i + 1;
            }
            proof {
                assert(strings_view(labels@).subrange(0, labels.len() as int) =~= strings_view(
                    labels@,
                ));
            }
            let ghost m1 = crate::visitors::dependency::paths_view(map@);
            let ghost cv = children_view(children@);
            proof {
                lemma_children_view(children@);
            }
            let mut i: usize = 0;
            while i < children.len()
                invariant
                    i <= children.len(),
                    *node is Existing,
                    *children == node->children,
                    cv == children_view(children@),
                    cv.len() == children@.len(),
                    forall|j: int|
                        0 <= j < children@.len() ==> #[trigger] cv[j] == (
                            children@[j].0@,
                            children@[j].1@,
                        ),
                    label_paths_children(m1, cv, current_path@, 0) == label_paths_children(
                        crate::visitors::dependency::paths_view(map@),
                        cv,
                        current_path@,
                        i as int,
                    ),
                decreases children.len() - i,
            {
                let child_name = children[i].0.as_str();
                let sub_path = if str_eq(current_path, "/") {
                    concat("/", child_name)
                } else {
                    let p = concat(current_path, "/");
                    concat(p.as_str(), child_name)
                };
                proof {
                    reveal_strlit("/");
                    assert("/"@ =~= seq!['/']);
                    assert(sub_path@ == child_path(current_path@, cv[i as int].0));
                    assert(decreases_to!(*node => *children));
                    assert(decreases_to!(*children => children@));
                    assert(decreases_to!(children@ => children@[i as int]));
                    assert(decreases_to!(children@[i as int] => children@[i as int].1));
                }
                Self::build_label_map(&children[i].1, sub_path.as_str(), map);
                i = i + 1;
            }
        }
    }

    pub fn output(&self) -> (r: String)
        ensures
            r@ == device_pins_text(self@.pins),
    {
        proof {
            reveal_strlit(",");
            reveal_strlit("_");
            reveal_strlit("\n");
        }
        let ghost pv = device_pins_view(self.pins@);
        let mut output = String::new();
        let mut i: usize = 0;
        while i < self.pins.len()
            invariant
                i <= self.pins.len(),
                pv == device_pins_view(self.pins@),
                output@ == device_pins_text(pv.subrange(0, i as int)),
                ","@ == seq![','],
                "_"@ == seq!['_'],
                "\n"@ == seq!['\n'],
            decreases self.pins.len() - i,
        {
            let pin = &self.pins[i];
            output.append(pin.device_name.as_str());
            output.append(",");
            let g = str_replace_char(pin.pinctrl_name.as_str(), ',', "_");
            output.append(g.as_str());
            output.append(",");
            let t = fmt_dec(pin.config.bank as u64);
            output.append(t.as_str());
            output.append(",");
            let t = fmt_dec(pin.config.pin as u64);
            output.append(t.as_str());
            output.append(",");
            let t = fmt_dec(pin.config.mux as u64);
            output.append(t.as_str());
            output.append(",");
            output.append(pin.config.config.as_str());
            output.append("\n");
            proof {
                assert(pv[i as int] == pin@);
                assert(pv.subrange(0, i + 1).drop_last() =~= pv.subrange(0, i as int));
                assert(output@ =~= device_pins_text(pv.subrange(0, i + 1)));
            }
            i = i + 1;
        }
        proof {
            assert(pv.subrange(0, self.pins.len() as int) =~= pv);
        }
        output
    }

    fn extract_from_node(&mut self, device_name: &str, label: &str, pinctrl_node: &Node)
        ensures
            final(self)@ == (DevicePinctrlExtractorV {
                pins: old(self)@.pins + group_pins(pinctrl_node@, device_name@, label@),
                ..old(self)@
            }),
    {
        let ghost s = self@;
        if let Some(pins_data) = node_prop_data(pinctrl_node, "rockchip,pins") {
            let parsed = PinctrlExtractor::parse_rockchip_pins(pins_data);
            let ghost pv = pins_view(parsed@);
            let mut i: usize = 0;
            while i < parsed.len()
                invariant
                    i <= parsed.len(),
                    pv == pins_view(parsed@),
                    self@ == (DevicePinctrlExtractorV {
                        pins: s.pins + tag_pins(pv.subrange(0, i as int), device_name@, label@),
                        ..s
                    }),
                decreases parsed.len() - i,
            {
                let c = parsed[i].copy();
                let d = DevicePin {
                    device_name: String::from_str(device_name),
                    pinctrl_name: String::from_str(label),
                    config: c,
                };
                let ghost gd = d;
                let ghost old_pins = self.pins@;
                self.pins.push(d);
                proof {
                    lemma_map_push(old_pins, gd, |p: DevicePin| p@);
                    assert(pv[i as int] == parsed@[i as int]@);
                    assert(tag_pins(pv.subrange(0, i + 1), device_name@, label@) =~= tag_pins(
                        pv.subrange(0, i as int),
                        device_name@,
                        label@,
                    ).push(gd@));
                    assert(self@.pins =~= s.pins + tag_pins(pv.subrange(0, i + 1), device_name@, label@));
                }
                i = i + 1;
            }
            proof {
                assert(pv.subrange(0, parsed.len() as int) =~= pv);
            }
        } else {
            proof {
                assert(self@.pins =~= s.pins + Seq::<DevicePinV>::empty());
            }
        }
    }

    // The device pins of a `pinctrl-N` reference to `label`.
    fn handle_ref(&mut self, device_name: &str, label: &str)
        ensures
            final(self)@ == (DevicePinctrlExtractorV {
                pins: old(self)@.pins + ref_pins(
                    old(self)@.root,
                    old(self)@.label_map,
                    device_name@,
                    label@,
                ),
                ..old(self)@
            }),
    {
        let ghost s = self@;
        let tree = self.tree;
        if let Some(pinctrl_node) = tree.get_node_by_label(label) {
            let pinctrl_path = match self.label_map.get(label) {
                Some(p) => p.clone(),
                None => String::from_str(label),
            };
            self.extract_from_node(device_name, pinctrl_path.as_str(), pinctrl_node);
        } else {
            proof {
                assert(self@.pins =~= s.pins + Seq::<DevicePinV>::empty());
            }
        }
    }
}

impl<'a> DevicePinctrlExtractor<'a> {
    // The device pins of the references in a `pinctrl-N` value.
    fn push_ref_pins(&mut self, device_name: &str, data: &Vec<Data>)
        ensures
            final(self)@ == (DevicePinctrlExtractorV {
                pins: old(self)@.pins + data_ref_pins(
                    old(self)@.root,
                    old(self)@.label_map,
                    device_name@,
                    datas_view(data@),
                ),
                ..old(self)@
            }),
    {
        let ghost s = self@;
        let ghost dv = datas_view(data@);
        let mut i: usize = 0;
        while i < data.len()
            invariant
                i <= data.len(),
                dv == datas_view(data@),
                self@ == (DevicePinctrlExtractorV {
                    pins: s.pins + data_ref_pins(s.root, s.label_map, device_name@, dv.subrange(0, i as int)),
                    ..s
                }),
            decreases data.len() - i,
        {
            proof {
                assert(dv.subrange(0, i + 1).drop_last() =~= dv.subrange(0, i as int));
                assert(dv.subrange(0, i + 1).last() == data@[i as int]@);
            }
            let ghost p0 = self@.pins;
            match &data[i] {
                Data::Cells(_, cells) => {
                    let ghost cw = cells_view(cells@);
                    let mut j: usize = 0;
                    while j < cells.len()
                        invariant
                            j <= cells.len(),
                            cw == cells_view(cells@),
                            self@ == (DevicePinctrlExtractorV {
                                pins: p0 + cells_ref_pins(s.root, s.label_map, device_name@, cw.subrange(0, j as int)),
                                ..s
                            }),
                        decreases cells.len() - j,
                    {
                        proof {
                            assert(cw.subrange(0, j + 1).drop_last() =~= cw.subrange(0, j as int));
                            assert(cw.subrange(0, j + 1).last() == cells@[j as int]@);
                        }
                        let ghost p1 = self@.pins;
                        if let Cell::Ref(label, _) = &cells[j] {
                            self.handle_ref(device_name, label.as_str());
                        }
                        proof {
                            assert(self@.pins =~= p0 + cells_ref_pins(
                                s.root,
                                s.label_map,
                                device_name@,
                                cw.subrange(0, j + 1),
                            ));
                        }
                        j = j + 1;
                    }
                    proof {
                        assert(cw.subrange(0, cells.len() as int) =~= cw);
                    }
                },
                Data::Reference(label, _) => {
                    self.handle_ref(device_name, label.as_str());
                },
                _ => {},
            }
            proof {
                assert(self@.pins =~= s.pins + data_ref_pins(
                    s.root,
                    s.label_map,
                    device_name@,
                    dv.subrange(0, i + 1),
                ));
            }
            i = i + 1;
        }
        proof {
            assert(dv.subrange(0, data.len() as int) =~= dv);
        }
    }

    // The GPIO pins of one `< ... >` list of a GPIO property.
    fn push_gpio_cells(&mut self, device_name: &str, prop_name: &str, cells: &Vec<Cell>)
        ensures
            final(self)@ == (DevicePinctrlExtractorV {
                pins: old(self)@.pins + gpio_scan(
                    old(self)@.gpio_banks,
                    device_name@,
                    prop_name@,
                    cells_view(cells@),
                    0,
                ),
                ..old(self)@
            }),
    {
        proof {
            reveal_strlit("0x0");
        }
        let ghost s = self@;
        let ghost cw = cells_view(cells@);
        let ghost scan = |k: int| gpio_scan(s.gpio_banks, device_name@, prop_name@, cw, k);
        let mut i: usize = 0;
        proof {
            assert(s.pins + gpio_scan(s.gpio_banks, device_name@, prop_name@, cw, 0) =~= self@.pins
                + gpio_scan(s.gpio_banks, device_name@, prop_name@, cw, 0));
        }
        while i < cells.len()
            invariant_except_break
                i <= cells.len(),
                cw == cells_view(cells@),
                cw.len() == cells.len(),
                "0x0"@ == seq!['0', 'x', '0'],
                self@ == (DevicePinctrlExtractorV { pins: self@.pins, ..s }),
                s.pins + gpio_scan(s.gpio_banks, device_name@, prop_name@, cw, 0) == self@.pins
                    + gpio_scan(s.gpio_banks, device_name@, prop_name@, cw, i as int),
            ensures
                self@ == (DevicePinctrlExtractorV {
                    pins: s.pins + gpio_scan(s.gpio_banks, device_name@, prop_name@, cw, 0),
                    ..s
                }),
            decreases cells.len() - i,
        {
            let ghost at = i as int;
            proof {
                assert(cw[at] == cells@[at]@);
            }
            let cell = &cells[i];
            i = i + 1;
            if let Cell::Ref(label, _) = cell {
                if let Some(bank_id) = self.gpio_banks.get(label.as_str()) {
                    let bank_id = *bank_id;
                    // The next cell should be the pin number.
                    if i < cells.len() {
                        proof {
                            assert(cw[at + 1] == cells@[at + 1]@);
                        }
                        let next = &cells[i];
                        i = i + 1;
                        if let Cell::Num(pin) = next {
                            let pin = *pin;
                            // Flags, when present (consumed either way).
                            let flags_str = if i < cells.len() {
                                proof {
                                    assert(cw[at + 2] == cells@[at + 2]@);
                                }
                                let third = &cells[i];
                                i = i + 1;
                                if let Cell::Num(flags) = third {
                                    fmt_hex_prefixed(*flags as u128)
                                } else {
                                    String::from_str("0x0")
                                }
                            } else {
                                String::from_str("0x0")
                            };
                            let d = DevicePin {
                                device_name: String::from_str(device_name),
                                pinctrl_name: String::from_str(prop_name),
                                config: PinConfig { bank: bank_id, pin: pin as u32, mux: 0, config: flags_str },
                            };
                            let ghost gd = d;
                            let ghost old_pins = self.pins@;
                            self.pins.push(d);
                            proof {
                                lemma_map_push(old_pins, gd, |p: DevicePin| p@);
                                let tail = gpio_scan(s.gpio_banks, device_name@, prop_name@, cw, i as int);
                                assert(gpio_scan(s.gpio_banks, device_name@, prop_name@, cw, at)
                                    == seq![gd@] + tail);
                                assert(device_pins_view(old_pins) + (seq![gd@] + tail) =~= self@.pins
                                    + tail);
                            }
                        } else {
                            proof {
                                assert(gpio_scan(s.gpio_banks, device_name@, prop_name@, cw, at)
                                    == gpio_scan(s.gpio_banks, device_name@, prop_name@, cw, i as int));
                            }
                        }
                    } else {
                        proof {
                            assert(gpio_scan(s.gpio_banks, device_name@, prop_name@, cw, at)
                                =~= Seq::<DevicePinV>::empty());
                            assert(self@.pins + Seq::<DevicePinV>::empty() =~= self@.pins);
                        }
                        break ;
                    }
                }
            }
        }
        proof {
            if i >= cells.len() {
                assert(gpio_scan(s.gpio_banks, device_name@, prop_name@, cw, i as int)
                    =~= Seq::<DevicePinV>::empty());
                assert(self@.pins + Seq::<DevicePinV>::empty() =~= self@.pins);
            }
        }
    }

    // The GPIO pins of a GPIO property.
    fn push_gpio_pins(&mut self, device_name: &str, prop_name: &str, data: &Vec<Data>)
        ensures
            final(self)@ == (DevicePinctrlExtractorV {
                pins: old(self)@.pins + data_gpio_pins(
                    old(self)@.gpio_banks,
                    device_name@,
                    prop_name@,
                    datas_view(data@),
                ),
                ..old(self)@
            }),
    {
        let ghost s = self@;
        let ghost dv = datas_view(data@);
        let mut i: usize = 0;
        while i < data.len()
            invariant
                i <= data.len(),
                dv == datas_view(data@),
                self@ == (DevicePinctrlExtractorV {
                    pins: s.pins + data_gpio_pins(s.gpio_banks, device_name@, prop_name@, dv.subrange(0, i as int)),
                    ..s
                }),
            decreases data.len() - i,
        {
            proof {
                assert(dv.subrange(0, i + 1).drop_last() =~= dv.subrange(0, i as int));
                assert(dv.subrange(0, i + 1).last() == data@[i as int]@);
            }
            if let Data::Cells(_, cells) = &data[i] {
                self.push_gpio_cells(device_name, prop_name, cells);
            }
            proof {
                assert(self@.pins =~= s.pins + data_gpio_pins(
                    s.gpio_banks,
                    device_name@,
                    prop_name@,
                    dv.subrange(0, i + 1),
                ));
            }
            i = i + 1;
        }
        proof {
            assert(dv.subrange(0, data.len() as int) =~= dv);
        }
    }
}

impl<'a> Visitor for DevicePinctrlExtractor<'a> {
    open spec fn ready(s: DevicePinctrlExtractorV) -> bool {
        true
    }

    proof fn lemma_ready_kept(s: DevicePinctrlExtractorV, name: Seq<char>, node: NodeV) {
    }

    open spec fn spec_enter(s: DevicePinctrlExtractorV, name: Seq<char>, node: NodeV) -> (
        DevicePinctrlExtractorV,
        bool,
    ) {
        let path = s.path.push(name);
        let fp = full_path_of(path);
        (
            DevicePinctrlExtractorV {
                path,
                pins: s.pins + props_pins(s.root, s.gpio_banks, s.label_map, fp, node.props()),
                ..s
            },
            true,
        )
    }

    open spec fn spec_exit(s: DevicePinctrlExtractorV, name: Seq<char>, node: NodeV) -> DevicePinctrlExtractorV {
        DevicePinctrlExtractorV { path: pop_seq(s.path), ..s }
    }

    fn enter_node(&mut self, name: &str, node: &Node) -> (r: bool) {
        let ghost s = self@;
        self.path_stack.push(String::from_str(name));
        proof {
            assert(strings_view(self.path_stack@) =~= s.path.push(name@));
        }
        let full_path = full_path(&self.path_stack);
        let ghost s1 = self@;
        if let Node::Existing { proplist, .. } = node {
            let device_name = full_path.as_str();
            let n = prop_map_len(proplist);
            let ghost props = prop_entries(*proplist);
            let mut k: usize = 0;
            while k < n
                invariant
                    k <= n,
                    n == props.len(),
                    props == prop_entries(*proplist),
                    self@ == (DevicePinctrlExtractorV {
                        pins: s1.pins + props_pins(
                            s1.root,
                            s1.gpio_banks,
                            s1.label_map,
                            device_name@,
                            props.subrange(0, k as int),
                        ),
                        ..s1
                    }),
                decreases n - k,
            {
                let (prop_name, prop) = prop_map_get_index(proplist, k);
                proof {
                    assert(props.subrange(0, k + 1).drop_last() =~= props.subrange(0, k as int));
                    assert(props.subrange(0, k + 1).last() == props[k as int]);
                    reveal_strlit("pinctrl-");
                    reveal_strlit("gpios");
                    reveal_strlit("gpio");
                }
                let ghost p0 = self@.pins;
                let data = match prop {
                    Property::Existing { val: Some(d), .. } => Some(d),
                    _ => None,
                };
                // 1. `pinctrl-N` references to pin groups.
                let mut is_pinctrl = false;
                if str_starts_with(prop_name.as_str(), "pinctrl-") {
                    let suffix = str_skip(prop_name.as_str(), 8);
                    if str_all_digits(suffix.as_str()) {
                        is_pinctrl = true;
                    }
                }
                if is_pinctrl {
                    if let Some(d) = data {
                        self.push_ref_pins(device_name, d);
                    }
                }
                let ghost p1 = self@.pins;
                // 2. GPIO properties: `gpios`, `reset-gpios`, `snps,reset-gpio`, ...
                if str_ends_with(prop_name.as_str(), "gpios") || str_ends_with(
                    prop_name.as_str(),
                    "gpio",
                ) {
                    if let Some(d) = data {
                        self.push_gpio_pins(device_name, prop_name.as_str(), d);
                    }
                }
                proof {
                    assert(is_pinctrl == is_pinctrl_prop(prop_name@));
                    assert(self@.pins =~= s1.pins + props_pins(
                        s1.root,
                        s1.gpio_banks,
                        s1.label_map,
                        device_name@,
                        props.subrange(0, k + 1),
                    ));
                }
                k = k + 1;
            }
            proof {
                assert(props.subrange(0, n as int) =~= props);
            }
        } else {
            proof {
                assert(self@.pins =~= s1.pins + props_pins(
                    s1.root,
                    s1.gpio_banks,
                    s1.label_map,
                    full_path@,
                    node@.props(),
                ));
            }
        }
        true
    }

    fn exit_node(&mut self, _name: &str, _node: &Node) {
        let ghost s = self@;
        self.path_stack.pop();
        proof {
            if s.path.len() > 0 {
                assert(strings_view(self.path_stack@) =~= s.path.drop_last());
            }
        }
    }
}

/// Walking a subtree leaves the path as it was (and the tree, the GPIO banks
/// and the label map, which nothing changes).
pub proof fn lemma_device_pinctrl_walk_restores(s: DevicePinctrlExtractorV, name: Seq<char>, node: NodeV)
    ensures
        walk_spec::<DevicePinctrlExtractor<'static>>(s, name, node).path == s.path,
        walk_spec::<DevicePinctrlExtractor<'static>>(s, name, node).root == s.root,
        walk_spec::<DevicePinctrlExtractor<'static>>(s, name, node).gpio_banks == s.gpio_banks,
        walk_spec::<DevicePinctrlExtractor<'static>>(s, name, node).label_map == s.label_map,
{
    let p = |v: DevicePinctrlExtractorV| (v.path, v.root, v.gpio_banks, v.label_map);
    assert forall|t: DevicePinctrlExtractorV, u: DevicePinctrlExtractorV, nm: Seq<char>, nd: NodeV|
        #![trigger DevicePinctrlExtractor::<'static>::spec_enter(t, nm, nd), DevicePinctrlExtractor::<'static>::spec_exit(u, nm, nd)]
        p(u) == p(DevicePinctrlExtractor::<'static>::spec_enter(t, nm, nd).0) implies p(DevicePinctrlExtractor::<'static>::spec_exit(u, nm, nd)) == p(t) by {
        let e = DevicePinctrlExtractor::<'static>::spec_enter(t, nm, nd).0;
        assert(e.path.drop_last() =~= t.path);
    }
    lemma_walk_keeps::<
        DevicePinctrlExtractor<'static>,
        (Seq<Seq<char>>, NodeV, Map<Seq<char>, u32>, Map<Seq<char>, Seq<char>>),
    >(p, s, name, node);
}

/// Walking a subtree only appends to the pin uses found so far.
pub proof fn lemma_device_pinctrl_walk_appends(s: DevicePinctrlExtractorV, name: Seq<char>, node: NodeV)
    ensures
        s.pins.is_prefix_of(walk_spec::<DevicePinctrlExtractor<'static>>(s, name, node).pins),
{
    let q = |v: DevicePinctrlExtractorV| v.pins;
    assert forall|t: DevicePinctrlExtractorV, nm: Seq<char>, nd: NodeV|
        #[trigger] q(t).is_prefix_of(q(DevicePinctrlExtractor::<'static>::spec_enter(t, nm, nd).0)) by {
        let e = DevicePinctrlExtractor::<'static>::spec_enter(t, nm, nd).0;
        assert(t.pins =~= e.pins.subrange(0, t.pins.len() as int));
    }
    assert forall|u: DevicePinctrlExtractorV, nm: Seq<char>, nd: NodeV|
        #[trigger] q(u).is_prefix_of(q(DevicePinctrlExtractor::<'static>::spec_exit(u, nm, nd))) by {
        let e = DevicePinctrlExtractor::<'static>::spec_exit(u, nm, nd);
        assert(u.pins =~= e.pins.subrange(0, u.pins.len() as int));
    }
    lemma_walk_appends::<DevicePinctrlExtractor<'static>, DevicePinV>(q, s, name, node);
}

// ---------------------------------------------------------------------------
// What a whole walk finds
// ---------------------------------------------------------------------------

/// The pin uses found under `node` (named `name`, below the path `path`), in
/// depth-first order, with the tree `root`, the GPIO banks and the label map
/// fixed.
pub open spec fn tree_pins(
    root: NodeV,
    banks: Map<Seq<char>, u32>,
    lm: Map<Seq<char>, Seq<char>>,
    path: Seq<Seq<char>>,
    name: Seq<char>,
    node: NodeV,
) -> Seq<DevicePinV>
    decreases node, 0nat,
{
    let path2 = path.push(name);
    let here = props_pins(root, banks, lm, full_path_of(path2), node.props());
    match node {
        NodeV::Existing { children, .. } => here + children_pins(root, banks, lm, path2, children, 0),
        NodeV::Deleted { .. } => here,
    }
}

/// `tree_pins` of `children[i..]`, concatenated.
pub open spec fn children_pins(
    root: NodeV,
    banks: Map<Seq<char>, u32>,
    lm: Map<Seq<char>, Seq<char>>,
    path: Seq<Seq<char>>,
    children: Seq<(Seq<char>, NodeV)>,
    i: int,
) -> Seq<DevicePinV>
    decreases children, children.len() - i,
{
    if 0 <= i < children.len() {
        tree_pins(root, banks, lm, path, children[i].0, children[i].1) + children_pins(
            root,
            banks,
            lm,
            path,
            children,
            i + 1,
        )
    } else {
        Seq::empty()
    }
}

proof fn lemma_device_walk_pins(s: DevicePinctrlExtractorV, name: Seq<char>, node: NodeV)
    ensures
        walk_spec::<DevicePinctrlExtractor<'static>>(s, name, node).pins == s.pins + tree_pins(
            s.root,
            s.gpio_banks,
            s.label_map,
            s.path,
            name,
            node,
        ),
    decreases node, 0nat,
{
    let s1 = DevicePinctrlExtractor::<'static>::spec_enter(s, name, node).0;
    let here = props_pins(s.root, s.gpio_banks, s.label_map, full_path_of(s.path.push(name)), node.props());
    if let NodeV::Existing { children, .. } = node {
        lemma_device_walk_children(s1, children, 0);
        let rest = children_pins(s1.root, s1.gpio_banks, s1.label_map, s1.path, children, 0);
        assert(s.pins + here + rest =~= s.pins + (here + rest));
    }
}

proof fn lemma_device_walk_children(
    s: DevicePinctrlExtractorV,
    children: Seq<(Seq<char>, NodeV)>,
    i: int,
)
    ensures
        walk_children::<DevicePinctrlExtractor<'static>>(s, children, i).pins == s.pins
            + children_pins(s.root, s.gpio_banks, s.label_map, s.path, children, i),
    decreases children, children.len() - i,
{
    if 0 <= i < children.len() {
        lemma_device_walk_pins(s, children[i].0, children[i].1);
        lemma_device_pinctrl_walk_restores(s, children[i].0, children[i].1);
        let s1 = walk_spec::<DevicePinctrlExtractor<'static>>(s, children[i].0, children[i].1);
        lemma_device_walk_children(s1, children, i + 1);
        let a = tree_pins(s.root, s.gpio_banks, s.label_map, s.path, children[i].0, children[i].1);
        let b = children_pins(s.root, s.gpio_banks, s.label_map, s.path, children, i + 1);
        assert(s.pins + a + b =~= s.pins + (a + b));
    } else {
        assert(s.pins + Seq::<DevicePinV>::empty() =~= s.pins);
    }
}

/// A walk of a new extractor over the root of `tree` finds the pin uses of
/// every node in depth-first order (`tree_pins`).
pub proof fn lemma_device_pinctrl_walk(root: NodeV, name: Seq<char>)
    ensures
        ({
            let s = DevicePinctrlExtractorV {
                root,
                pins: Seq::empty(),
                gpio_banks: tree_gpio_banks(root),
                path: Seq::empty(),
                label_map: label_paths(Map::empty(), root, seq!['/']),
            };
            walk_spec::<DevicePinctrlExtractor<'static>>(s, name, root).pins == tree_pins(
                root,
                s.gpio_banks,
                s.label_map,
                Seq::empty(),
                name,
                root,
            )
        }),
{
    let s = DevicePinctrlExtractorV {
        root,
        pins: Seq::empty(),
        gpio_banks: tree_gpio_banks(root),
        path: Seq::empty(),
        label_map: label_paths(Map::empty(), root, seq!['/']),
    };
    lemma_device_walk_pins(s, name, root);
    let t = tree_pins(root, s.gpio_banks, s.label_map, Seq::empty(), name, root);
    assert(Seq::<DevicePinV>::empty() + t =~= t);
}

// ---------------------------------------------------------------------------
// Pins of a pinctrl-N value
// ---------------------------------------------------------------------------

proof fn lemma_cells_ref_pins_concat(
    root: NodeV,
    lm: Map<Seq<char>, Seq<char>>,
    device: Seq<char>,
    a: Seq<CellV>,
    b: Seq<CellV>,
)
    ensures
        cells_ref_pins(root, lm, device, a + b) == cells_ref_pins(root, lm, device, a)
            + cells_ref_pins(root, lm, device, b),
    decreases b.len(),
{
    if b.len() == 0 {
        assert(a + b =~= a);
        assert(cells_ref_pins(root, lm, device, a) + Seq::<DevicePinV>::empty() =~= cells_ref_pins(
            root,
            lm,
            device,
            a,
        ));
    } else {
        lemma_cells_ref_pins_concat(root, lm, device, a, b.drop_last());
        assert((a + b).drop_last() =~= a + b.drop_last());
        assert((a + b).last() == b.last());
        let x = match b.last() {
            CellV::Ref(l, _) => ref_pins(root, lm, device, l),
            CellV::Num(_) => Seq::<DevicePinV>::empty(),
        };
        assert(cells_ref_pins(root, lm, device, a) + cells_ref_pins(root, lm, device, b.drop_last()) + x
            =~= cells_ref_pins(root, lm, device, a) + (cells_ref_pins(
            root,
            lm,
            device,
            b.drop_last(),
        ) + x));
    }
}

proof fn lemma_data_ref_pins_concat(
    root: NodeV,
    lm: Map<Seq<char>, Seq<char>>,
    device: Seq<char>,
    a: Seq<DataV>,
    b: Seq<DataV>,
)
    ensures
        data_ref_pins(root, lm, device, a + b) == data_ref_pins(root, lm, device, a)
            + data_ref_pins(root, lm, device, b),
    decreases b.len(),
{
    if b.len() == 0 {
        assert(a + b =~= a);
        assert(data_ref_pins(root, lm, device, a) + Seq::<DevicePinV>::empty() =~= data_ref_pins(
            root,
            lm,
            device,
            a,
        ));
    } else {
        lemma_data_ref_pins_concat(root, lm, device, a, b.drop_last());
        assert((a + b).drop_last() =~= a + b.drop_last());
        assert((a + b).last() == b.last());
        let x = match b.last() {
            DataV::Cells(_, c) => cells_ref_pins(root, lm, device, c),
            DataV::Reference(l, _) => ref_pins(root, lm, device, l),
            _ => Seq::<DevicePinV>::empty(),
        };
        assert(data_ref_pins(root, lm, device, a) + data_ref_pins(root, lm, device, b.drop_last()) + x
            =~= data_ref_pins(root, lm, device, a) + (data_ref_pins(
            root,
            lm,
            device,
            b.drop_last(),
        ) + x));
    }
}

/// The pins a `pinctrl-N` value yields are those of every group it
/// references, in order: a value split anywhere (between pieces, or inside
/// a `< ... >` list of cells) yields the pins of its first part followed by
/// those of its second; a single reference yields its group's pins, and a
/// single number none.
pub proof fn lemma_data_ref_pins(
    root: NodeV,
    lm: Map<Seq<char>, Seq<char>>,
    device: Seq<char>,
    a: Seq<DataV>,
    b: Seq<DataV>,
    bits: usize,
    c1: Seq<CellV>,
    c2: Seq<CellV>,
    l: Seq<char>,
    o: Option<u32>,
    n: u64,
)
    ensures
        data_ref_pins(root, lm, device, a + b) == data_ref_pins(root, lm, device, a)
            + data_ref_pins(root, lm, device, b),
        data_ref_pins(root, lm, device, seq![DataV::Cells(bits, c1 + c2)]) == data_ref_pins(
            root,
            lm,
            device,
            seq![DataV::Cells(bits, c1)],
        ) + data_ref_pins(root, lm, device, seq![DataV::Cells(bits, c2)]),
        data_ref_pins(root, lm, device, seq![DataV::Cells(bits, seq![CellV::Ref(l, o)])]) == ref_pins(
            root,
            lm,
            device,
            l,
        ),
        data_ref_pins(root, lm, device, seq![DataV::Reference(l, o)]) == ref_pins(
            root,
            lm,
            device,
            l,
        ),
        data_ref_pins(root, lm, device, seq![DataV::Cells(bits, seq![CellV::Num(n)])]).len() == 0,
{
    lemma_data_ref_pins_concat(root, lm, device, a, b);
    lemma_cells_ref_pins_concat(root, lm, device, c1, c2);
    lemma_single_piece(root, lm, device, DataV::Cells(bits, c1 + c2));
    lemma_single_piece(root, lm, device, DataV::Cells(bits, c1));
    lemma_single_piece(root, lm, device, DataV::Cells(bits, c2));
    lemma_single_piece(root, lm, device, DataV::Reference(l, o));
    lemma_single_piece(root, lm, device, DataV::Cells(bits, seq![CellV::Ref(l, o)]));
    lemma_single_piece(root, lm, device, DataV::Cells(bits, seq![CellV::Num(n)]));
    let c = seq![CellV::Ref(l, o)];
    assert(c.drop_last() =~= Seq::<CellV>::empty());
    assert(c.last() == CellV::Ref(l, o));
    assert(cells_ref_pins(root, lm, device, c.drop_last()) == Seq::<DevicePinV>::empty());
    assert(cells_ref_pins(root, lm, device, c) =~= Seq::<DevicePinV>::empty() + ref_pins(
        root,
        lm,
        device,
        l,
    ));
    let c3 = seq![CellV::Num(n)];
    assert(c3.drop_last() =~= Seq::<CellV>::empty());
    assert(c3.last() == CellV::Num(n));
    assert(cells_ref_pins(root, lm, device, c3.drop_last()) == Seq::<DevicePinV>::empty());
    assert(cells_ref_pins(root, lm, device, c3) =~= Seq::<DevicePinV>::empty());
}

proof fn lemma_single_piece(root: NodeV, lm: Map<Seq<char>, Seq<char>>, device: Seq<char>, x: DataV)
    ensures
        data_ref_pins(root, lm, device, seq![x]) == match x {
            DataV::Cells(_, c) => cells_ref_pins(root, lm, device, c),
            DataV::Reference(l, _) => ref_pins(root, lm, device, l),
            _ => Seq::<DevicePinV>::empty(),
        },
{
    let d = seq![x];
    assert(d.drop_last() =~= Seq::<DataV>::empty());
    assert(d.last() == x);
    assert(data_ref_pins(root, lm, device, d.drop_last()) == Seq::<DevicePinV>::empty());
    let y = match x {
        DataV::Cells(_, c) => cells_ref_pins(root, lm, device, c),
        DataV::Reference(l, _) => ref_pins(root, lm, device, l),
        _ => Seq::<DevicePinV>::empty(),
    };
    assert(Seq::<DevicePinV>::empty() + y =~= y);
}

} // verus!
