//! A host and a device that were set up from one model find each other's streams.
use vstd::prelude::*;

use crate::csv_specs;
use crate::csv_streamer;
use crate::csv_streamer::{AttachError, DeviceStreamDescriptor, Feeder};
use crate::device_model;
use crate::device_model::DeviceModel;
use crate::host_sources;
use crate::model;
use crate::model::ModelTables;
use crate::model_laws;
use crate::ordering;
use crate::protocol_laws;
use crate::stream_laws;
use crate::streams;

verus! {

/// The register number `k` among some has an address and is fed by the host.
pub open spec fn is_fed_at(regs: Seq<device_model::RegisterDef>, k: int, addr: u8) -> bool {
    0 <= k < regs.len() && device_model::is_host_stream(regs[k]) && regs[k].addr == addr
}

/// Some register at an address is fed by the host.
pub open spec fn has_fed_register(regs: Seq<device_model::RegisterDef>, addr: u8) -> bool {
    exists|k: int| #[trigger] is_fed_at(regs, k, addr)
}

/// The source number `k` among some has an address and is fed by the host.
pub open spec fn is_host_spec_at(specs: Seq<csv_specs::CsvSpec>, k: int, addr: u8) -> bool {
    0 <= k < specs.len() && model_laws::is_host_spec(specs[k]) && specs[k].addr == addr
}

/// The streams of the first `n` sources are those of the host-fed ones among them, in their order.
proof fn lemma_host_addrs(specs: Seq<csv_specs::CsvSpec>, n: nat)
    requires
        n <= specs.len(),
        model_laws::is_rising(specs),
    ensures
        ordering::is_rising(model::host_addrs(specs, n)),
        forall|h: int, k: int|
            0 <= h < model::host_addrs(specs, n).len() && n <= k < specs.len() ==> (
            #[trigger] model::host_addrs(specs, n)[h]) < (#[trigger] specs[k]).addr,
        forall|addr: u8|
            #![trigger model::host_addrs(specs, n).contains(addr)]
            model::host_addrs(specs, n).contains(addr) <==> exists|k: int|
                k < n && #[trigger] is_host_spec_at(specs, k, addr),
    decreases n,
{
    if n > 0 {
        let before = model::host_addrs(specs, (n - 1) as nat);
        let hosts = model::host_addrs(specs, n);
        let last = specs[n - 1];
        lemma_host_addrs(specs, (n - 1) as nat);
        assert forall|addr: u8| #![trigger hosts.contains(addr)] hosts.contains(addr) <==> exists|
            k: int,
        |
            k < n && #[trigger] is_host_spec_at(specs, k, addr) by {
            if hosts.contains(addr) {
                let h = choose|h: int| 0 <= h < hosts.len() && hosts[h] == addr;
                if h < before.len() {
                    assert(before[h] == addr);
                    assert(before.contains(addr));
                    let k = choose|k: int| k < n - 1 && #[trigger] is_host_spec_at(specs, k, addr);
                    assert(is_host_spec_at(specs, k, addr));
                } else {
                    assert(is_host_spec_at(specs, n - 1, addr));
                }
            }
            if exists|k: int| k < n && #[trigger] is_host_spec_at(specs, k, addr) {
                let k = choose|k: int| k < n && #[trigger] is_host_spec_at(specs, k, addr);
                if k < n - 1 {
                    assert(before.contains(addr));
                    let h = choose|h: int| 0 <= h < before.len() && before[h] == addr;
                    assert(hosts[h] == addr);
                } else {
                    assert(hosts[hosts.len() - 1] == addr);
                }
            }
        }
        assert forall|h: int, k: int| 0 <= h < hosts.len() && n <= k < specs.len() implies (
        #[trigger] hosts[h]) < (#[trigger] specs[k]).addr by {
            if h < before.len() {
                assert(before[h] == hosts[h]);
            } else {
                assert(last.addr < specs[k].addr);
            }
        }
        assert forall|i: int, j: int| 0 <= i < j < hosts.len() implies (#[trigger] hosts[i]) < (
        #[trigger] hosts[j]) by {
            assert(before[i] == hosts[i]);
            if j < before.len() {
                assert(before[j] == hosts[j]);
            } else {
                assert(before[i] < specs[n - 1].addr);
            }
        }
    }
}

/// A filter keeps what satisfies it.
proof fn lemma_filter_keeps<T>(s: Seq<T>, pred: spec_fn(T) -> bool, i: int) -> (j: int)
    requires
        0 <= i < s.len(),
        pred(s[i]),
    ensures
        0 <= j < s.filter(pred).len(),
        s.filter(pred)[j] == s[i],
    decreases s.len(),
{
    reveal(Seq::filter);
    if i == s.len() - 1 {
        s.filter(pred).len() - 1
    } else {
        lemma_filter_keeps(s.drop_last(), pred, i)
    }
}

/// There is a host-fed source at an address where there is a host-fed register.
proof fn lemma_specs_of_registers(
    device: DeviceModel,
    files: Seq<csv_specs::CsvFile>,
    specs: Seq<csv_specs::CsvSpec>,
    addr: u8,
)
    requires
        device.is_valid(),
        csv_specs::resolved_specs(device.registers@, files) == Ok::<
            Seq<csv_specs::CsvSpec>,
            csv_specs::SpecsErrorView,
        >(specs),
    ensures
        (exists|k: int| k < specs.len() && #[trigger] is_host_spec_at(specs, k, addr))
            <==> has_fed_register(device.registers@, addr),
{
    let regs = device.registers@;
    let pred = |r: device_model::RegisterDef| r.csv is Some;
    let with_csv = device_model::csv_registers(regs);
    let loaded = csv_specs::loaded_specs(with_csv, files, with_csv.len())->Ok_0;
    let key = csv_specs::spec_key();
    assert forall|i: int| 0 <= i < with_csv.len() implies (#[trigger] with_csv[i]).csv is Some
        && with_csv[i].addr < 256 by {
        let j = device_model::lemma_filter_from(regs, pred, i);
    }
    model_laws::lemma_loaded(with_csv, files, with_csv.len());
    if exists|k: int| k < specs.len() && #[trigger] is_host_spec_at(specs, k, addr) {
        let k = choose|k: int| k < specs.len() && #[trigger] is_host_spec_at(specs, k, addr);
        ordering::lemma_sort_by_contains(loaded, key, specs[k]);
        assert(specs.contains(specs[k]));
        let i = choose|i: int| 0 <= i < loaded.len() && loaded[i] == specs[k];
        let j = device_model::lemma_filter_from(regs, pred, i);
        assert(is_fed_at(regs, j, addr));
    }
    if has_fed_register(regs, addr) {
        let j = choose|j: int| #[trigger] is_fed_at(regs, j, addr);
        let i = lemma_filter_keeps(regs, pred, j);
        ordering::lemma_sort_by_contains(loaded, key, loaded[i]);
        assert(loaded.contains(loaded[i]));
        let k = choose|k: int| 0 <= k < specs.len() && specs[k] == loaded[i];
        assert(is_host_spec_at(specs, k, addr));
    }
}

/// The addresses of some sources.
pub open spec fn source_addrs(sources: Seq<host_sources::Source>) -> Seq<u8> {
    sources.map_values(|s: host_sources::Source| s.addr)
}

/// There is a source for the host at an address where there is a host-fed register.
proof fn lemma_sources_of_registers(
    device: DeviceModel,
    files: Seq<csv_specs::CsvFile>,
    sources: Seq<host_sources::Source>,
    addr: u8,
)
    requires
        device.is_valid(),
        host_sources::host_sources(device.registers@, files) == Ok::<
            Seq<host_sources::Source>,
            host_sources::SourceErrorView,
        >(sources),
    ensures
        source_addrs(sources).contains(addr) <==> has_fed_register(device.registers@, addr),
{
    let regs = device.registers@;
    let pred = |r: device_model::RegisterDef| device_model::is_host_stream(r);
    let host_fed = device_model::host_stream_registers(regs);
    let found = host_sources::loaded_sources(host_fed, files, host_fed.len())->Ok_0;
    let key = host_sources::source_key();
    let addrs = source_addrs(sources);
    host_sources::lemma_loaded_sources_have_samples(host_fed, files, host_fed.len());
    if addrs.contains(addr) {
        let k = choose|k: int| 0 <= k < addrs.len() && addrs[k] == addr;
        ordering::lemma_sort_by_contains(found, key, sources[k]);
        assert(sources.contains(sources[k]));
        let i = choose|i: int| 0 <= i < found.len() && found[i] == sources[k];
        let j = device_model::lemma_filter_from(regs, pred, i);
        assert(is_fed_at(regs, j, addr));
    }
    if has_fed_register(regs, addr) {
        let j = choose|j: int| #[trigger] is_fed_at(regs, j, addr);
        let i = lemma_filter_keeps(regs, pred, j);
        ordering::lemma_sort_by_contains(found, key, found[i]);
        assert(found.contains(found[i]));
        let k = choose|k: int| 0 <= k < sources.len() && sources[k] == found[i];
        assert(addrs[k] == addr);
    }
}

/// Where a device and a host are set up from one model, the host has samples for exactly the
/// registers behind the device's streams, in the order of the streams.
pub proof fn law_sources_match_streams(
    device: DeviceModel,
    files: Seq<csv_specs::CsvFile>,
    specs: Seq<csv_specs::CsvSpec>,
    tables: ModelTables,
    host_files: Seq<csv_specs::CsvFile>,
    sources: Seq<host_sources::Source>,
)
    requires
        device.is_valid(),
        csv_specs::resolved_specs(device.registers@, files) == Ok::<
            Seq<csv_specs::CsvSpec>,
            csv_specs::SpecsErrorView,
        >(specs),
        tables.made_from(device, specs),
        host_sources::host_sources(device.registers@, host_files) == Ok::<
            Seq<host_sources::Source>,
            host_sources::SourceErrorView,
        >(sources),
    ensures
        source_addrs(sources) == tables.host_stream_addrs@,
{
    let addrs = source_addrs(sources);
    model_laws::law_resolved_specs(device, files, specs);
    assert forall|k: int| 0 <= k < specs.len() implies (#[trigger] specs[k]).addr < 256 by {
        assert(model_laws::is_sound_spec(specs[k]));
    }
    assert(specs.len() <= 256) by {
        reveal(Seq::filter);
        device.registers@.lemma_filter_len(|r: device_model::RegisterDef| r.csv is Some);
    }
    lemma_host_addrs(specs, specs.len());
    host_sources::law_sources_rise_and_have_samples(device, host_files);
    assert forall|i: int, j: int| 0 <= i < j < addrs.len() implies (#[trigger] addrs[i]) < (
    #[trigger] addrs[j]) by {
        assert(sources[i].addr < sources[j].addr);
    }
    assert forall|addr: u8| addrs.contains(addr) <==> tables.host_stream_addrs@.contains(addr) by {
        lemma_specs_of_registers(device, files, specs, addr);
        lemma_sources_of_registers(device, host_files, sources, addr);
    }
    ordering::lemma_rising_equal(addrs, tables.host_stream_addrs@);
}

/// What the host learns of the streams of a device.
pub open spec fn learned_descriptors(s: streams::Streams) -> Seq<DeviceStreamDescriptor> {
    Seq::new(s.host_count, |k: int| protocol_laws::learned_descriptor(s, k))
}

/// Among descriptors at rising addresses, the one for a register is found.
proof fn lemma_descriptor_for(descriptors: Seq<DeviceStreamDescriptor>, k: int)
    requires
        0 <= k < descriptors.len(),
        forall|i: int, j: int|
            0 <= i < j < descriptors.len() ==> (#[trigger] descriptors[i]).addr < (
            #[trigger] descriptors[j]).addr,
    ensures
        csv_streamer::descriptor_for(descriptors, descriptors[k].addr) == Some(descriptors[k]),
    decreases descriptors.len(),
{
    let head = descriptors.drop_last();
    if k < head.len() {
        lemma_descriptor_for(head, k);
    } else {
        lemma_no_descriptor_for(head, descriptors[k].addr);
    }
}

/// Where no descriptor is for a register, none is found.
proof fn lemma_no_descriptor_for(descriptors: Seq<DeviceStreamDescriptor>, addr: u8)
    requires
        forall|i: int| 0 <= i < descriptors.len() ==> (#[trigger] descriptors[i]).addr != addr,
    ensures
        csv_streamer::descriptor_for(descriptors, addr) is None,
    decreases descriptors.len(),
{
    if descriptors.len() > 0 {
        lemma_no_descriptor_for(descriptors.drop_last(), addr);
    }
}

/// Descriptors at rising addresses do not repeat one.
proof fn lemma_none_repeated(descriptors: Seq<DeviceStreamDescriptor>)
    requires
        forall|i: int, j: int|
            0 <= i < j < descriptors.len() ==> (#[trigger] descriptors[i]).addr < (
            #[trigger] descriptors[j]).addr,
    ensures
        csv_streamer::repeated_addr(descriptors) is None,
    decreases descriptors.len(),
{
    if descriptors.len() > 0 {
        let head = descriptors.drop_last();
        lemma_none_repeated(head);
        lemma_no_descriptor_for(head, descriptors.last().addr);
    }
}

/// The first `n` sources find their streams.
proof fn lemma_matched(
    sources: Seq<host_sources::Source>,
    descriptors: Seq<DeviceStreamDescriptor>,
    n: nat,
)
    requires
        n <= sources.len(),
        sources.len() == descriptors.len(),
        forall|k: int|
            0 <= k < sources.len() ==> (#[trigger] sources[k]).addr == descriptors[k].addr,
        forall|i: int, j: int|
            0 <= i < j < descriptors.len() ==> (#[trigger] descriptors[i]).addr < (
            #[trigger] descriptors[j]).addr,
    ensures
        csv_streamer::matched_streams(sources, descriptors, n) == Ok::<Seq<Feeder>, AttachError>(
            Seq::new(n, |k: int| csv_streamer::fresh_feeder(sources[k], descriptors[k])),
        ),
    decreases n,
{
    let expected = Seq::new(n, |k: int| csv_streamer::fresh_feeder(sources[k], descriptors[k]));
    if n == 0 {
        assert(expected =~= Seq::empty());
    } else {
        lemma_matched(sources, descriptors, (n - 1) as nat);
        lemma_descriptor_for(descriptors, n - 1);
        assert(expected =~= Seq::new(
            (n - 1) as nat,
            |k: int| csv_streamer::fresh_feeder(sources[k], descriptors[k]),
        ).push(csv_streamer::fresh_feeder(sources[n - 1], descriptors[n - 1])));
    }
}

/// Where a device and a host are set up from one model, the host finds a stream for each of its
/// sources: it attaches, and feeds each stream with the samples of the register behind it.
pub proof fn law_host_attaches_to_its_device(
    device: DeviceModel,
    files: Seq<csv_specs::CsvFile>,
    specs: Seq<csv_specs::CsvSpec>,
    tables: ModelTables,
    host_files: Seq<csv_specs::CsvFile>,
    sources: Seq<host_sources::Source>,
    s: streams::Streams,
)
    requires
        device.is_valid(),
        csv_specs::resolved_specs(device.registers@, files) == Ok::<
            Seq<csv_specs::CsvSpec>,
            csv_specs::SpecsErrorView,
        >(specs),
        tables.made_from(device, specs),
        host_sources::host_sources(device.registers@, host_files) == Ok::<
            Seq<host_sources::Source>,
            host_sources::SourceErrorView,
        >(sources),
        stream_laws::fit(s, tables),
    ensures
        sources.len() == s.host_count,
        forall|k: int| 0 <= k < sources.len() ==> (#[trigger] sources[k]).addr == s.hosts[k].addr,
        ({
            let feeders = Seq::new(
                s.host_count,
                |k: int|
                    csv_streamer::fresh_feeder(
                        sources[k],
                        protocol_laws::learned_descriptor(s, k),
                    ),
            );
            &&& csv_streamer::attached_streams(sources, learned_descriptors(s)) == Ok::<
                Seq<Feeder>,
                AttachError,
            >(feeders)
            &&& forall|k: int| 0 <= k < feeders.len() ==> (#[trigger] feeders[k]).wf()
        }),
{
    let descriptors = learned_descriptors(s);
    let addrs = source_addrs(sources);
    law_sources_match_streams(device, files, specs, tables, host_files, sources);
    host_sources::law_sources_rise_and_have_samples(device, host_files);
    assert(addrs.len() == sources.len());
    assert forall|k: int| 0 <= k < sources.len() implies (#[trigger] sources[k]).addr
        == s.hosts[k].addr by {
        assert(addrs[k] == sources[k].addr);
        assert(s.hosts[k].addr == tables.host_stream_addrs@[k]);
    }
    assert forall|i: int, j: int| 0 <= i < j < descriptors.len() implies (
    #[trigger] descriptors[i]).addr < (#[trigger] descriptors[j]).addr by {
        assert(sources[i].addr < sources[j].addr);
    }
    lemma_none_repeated(descriptors);
    lemma_matched(sources, descriptors, sources.len());
    let feeders = Seq::new(
        s.host_count,
        |k: int|
            csv_streamer::fresh_feeder(sources[k], protocol_laws::learned_descriptor(s, k)),
    );
    assert(feeders =~= Seq::new(
        sources.len(),
        |k: int| csv_streamer::fresh_feeder(sources[k], descriptors[k]),
    ));
    ordering::lemma_sort_by_sorted(feeders, csv_streamer::stream_key());
}

}
