//! Mirroring blocked names in the firewall.
//!
//! The firewall is the caller's to drive: it runs each command and hands back what
//! came of it. What is decided here: which names of a region have addresses to block,
//! how the rule of a name is called, which commands are due, and what is told of them.

use crate::report::{push_str, utf8};
use crate::store::Failure;
use crate::text::{append, contains, copy_range, includes, same_bytes, views};
use vstd::prelude::*;

verus! {

/// One name of a region with the addresses it is served from.
pub struct Cluster {
    pub domain: Vec<u8>,
    pub ips: Vec<Vec<u8>>,
}

/// One region of the directory.
pub struct RegionEntry {
    pub id: Vec<u8>,
    pub clusters: Vec<Cluster>,
}

/// The directory of the regions, their names and their addresses.
pub struct Directory {
    pub regions: Vec<RegionEntry>,
}

/// One name that a request reaches, with its addresses that are not empty.
pub struct Target {
    pub domain: Vec<u8>,
    pub ips: Vec<Vec<u8>>,
}

impl View for Target {
    type V = (Seq<u8>, Seq<Seq<u8>>);

    open spec fn view(&self) -> (Seq<u8>, Seq<Seq<u8>>) {
        (self.domain@, views(self.ips@))
    }
}

/// A command for the firewall.
pub enum Command {
    /// Delete the rule of this name; a rule that is not there is no failure.
    DeleteRule { name: Vec<u8> },
    /// Add a rule of this name that blocks outbound traffic to these addresses.
    AddRule { name: Vec<u8>, ips: Vec<Vec<u8>> },
}

/// A command as plain values.
pub enum CommandView {
    DeleteRule { name: Seq<u8> },
    AddRule { name: Seq<u8>, ips: Seq<Seq<u8>> },
}

impl View for Command {
    type V = CommandView;

    open spec fn view(&self) -> CommandView {
        match self {
            Command::DeleteRule { name } => CommandView::DeleteRule { name: name@ },
            Command::AddRule { name, ips } => CommandView::AddRule { name: name@, ips: views(ips@) },
        }
    }
}

/// The views of a list of commands.
pub open spec fn command_views(commands: Seq<Command>) -> Seq<CommandView> {
    Seq::new(commands.len(), |i: int| commands[i]@)
}

/// The views of a list of targets.
pub open spec fn target_views(targets: Seq<Target>) -> Seq<(Seq<u8>, Seq<Seq<u8>>)> {
    Seq::new(targets.len(), |i: int| targets[i]@)
}

/// What came of a command.
pub enum Reply {
    /// The command ran and did what it was to do.
    Done,
    /// The command ran and failed; `detail` is what it said.
    Failed { detail: Vec<u8> },
    /// The command could not be run at all; `detail` is what the system said.
    NotRun { detail: Vec<u8> },
}

/// A text with `_` in the place of each `.`.
pub open spec fn dots_replaced(s: Seq<u8>) -> Seq<u8> {
    Seq::new(s.len(), |i: int| if s[i] == 46u8 {
        95u8
    } else {
        s[i]
    })
}

/// The name of the rule that blocks `domain`.
pub open spec fn rule_name_of(domain: Seq<u8>) -> Seq<u8> {
    utf8("WoT_Blitz_Block_") + dots_replaced(domain)
}

/// The name of the rule that blocks the one address `ip` of `domain`.
pub open spec fn ip_rule_name_of(domain: Seq<u8>, ip: Seq<u8>) -> Seq<u8> {
    rule_name_of(domain) + utf8("_") + dots_replaced(ip)
}

/// Appends `s` to `out` with `_` in the place of each `.`.
fn append_dots_replaced(out: &mut Vec<u8>, s: &[u8])
    ensures
        final(out)@ == old(out)@ + dots_replaced(s@),
{
    let mut i: usize = 0;
    while i < s.len()
        invariant
            i <= s.len(),
            out@ == old(out)@ + dots_replaced(s@).take(i as int),
        decreases s.len() - i,
    {
        let b: u8 = if s[i] == 46 {
            95
        } else {
            s[i]
        };
        out.push(b);
        assert(dots_replaced(s@).take(i as int).push(b) =~= dots_replaced(s@).take(i + 1));
        i += 1;
    }
    assert(dots_replaced(s@).take(s.len() as int) =~= dots_replaced(s@));
}

/// Names the rule that blocks `domain`.
pub fn rule_name(domain: &[u8]) -> (r: Vec<u8>)
    ensures
        r@ == rule_name_of(domain@),
{
    let mut out: Vec<u8> = Vec::new();
    push_str(&mut out, "WoT_Blitz_Block_");
    append_dots_replaced(&mut out, domain);
    assert(out@ =~= rule_name_of(domain@));
    out
}

/// Names the rule that blocks the one address `ip` of `domain`.
pub fn ip_rule_name(domain: &[u8], ip: &[u8]) -> (r: Vec<u8>)
    ensures
        r@ == ip_rule_name_of(domain@, ip@),
{
    let mut out = rule_name(domain);
    push_str(&mut out, "_");
    append_dots_replaced(&mut out, ip);
    out
}

/// A request must name its region.
pub fn check_region_id(region_id: &[u8]) -> (r: Result<(), Failure>)
    ensures
        region_id@.len() == 0 <==> r == Err::<(), Failure>(Failure::InvalidRequest),
        region_id@.len() > 0 <==> r is Ok,
{
    if region_id.len() == 0 {
        Err(Failure::InvalidRequest)
    } else {
        Ok(())
    }
}

/// The place of the first region at or after `from` that is called `id`.
pub open spec fn region_index(regions: Seq<RegionEntry>, id: Seq<u8>, from: int) -> Option<int>
    decreases regions.len() - from,
{
    if from < 0 || from >= regions.len() {
        None
    } else if regions[from].id@ == id {
        Some(from)
    } else {
        region_index(regions, id, from + 1)
    }
}

/// The texts of `ips` that are not empty, in order.
pub open spec fn filled(ips: Seq<Seq<u8>>) -> Seq<Seq<u8>>
    decreases ips.len(),
{
    if ips.len() == 0 {
        ips
    } else if ips.last().len() == 0 {
        filled(ips.drop_last())
    } else {
        filled(ips.drop_last()).push(ips.last())
    }
}

/// The names of `clusters` that are among `wanted`, in the order of the directory, each
/// with its addresses that are not empty.
pub open spec fn targets_of(clusters: Seq<Cluster>, wanted: Seq<Seq<u8>>) -> Seq<
    (Seq<u8>, Seq<Seq<u8>>),
>
    decreases clusters.len(),
{
    if clusters.len() == 0 {
        Seq::empty()
    } else if wanted.contains(clusters.last().domain@) {
        targets_of(clusters.drop_last(), wanted).push(
            (clusters.last().domain@, filled(views(clusters.last().ips@))),
        )
    } else {
        targets_of(clusters.drop_last(), wanted)
    }
}

/// What a request reaches: the names of the first region called `region_id` that are
/// among `wanted`. A region that the directory does not know reaches nothing.
pub open spec fn reached(directory: Directory, region_id: Seq<u8>, wanted: Seq<Seq<u8>>) -> Seq<
    (Seq<u8>, Seq<Seq<u8>>),
> {
    match region_index(directory.regions@, region_id, 0) {
        Some(i) => targets_of(directory.regions@[i].clusters@, wanted),
        None => Seq::empty(),
    }
}

/// Some cluster is called `name`.
pub open spec fn is_listed(clusters: Seq<Cluster>, name: Seq<u8>) -> bool {
    exists|i: int| 0 <= i < clusters.len() && (#[trigger] clusters[i]).domain@ == name
}

/// The names of `wanted`, in their order, that no cluster is called.
pub open spec fn lacking(clusters: Seq<Cluster>, wanted: Seq<Seq<u8>>) -> Seq<Seq<u8>>
    decreases wanted.len(),
{
    if wanted.len() == 0 {
        wanted
    } else if is_listed(clusters, wanted.last()) {
        lacking(clusters, wanted.drop_last())
    } else {
        lacking(clusters, wanted.drop_last()).push(wanted.last())
    }
}

/// What a request wants and does not reach: the names of `wanted` that the first region
/// called `region_id` lacks. A region that the directory does not know lacks them all.
pub open spec fn beyond_reach(directory: Directory, region_id: Seq<u8>, wanted: Seq<Seq<u8>>) -> Seq<
    Seq<u8>,
> {
    match region_index(directory.regions@, region_id, 0) {
        Some(i) => lacking(directory.regions@[i].clusters@, wanted),
        None => wanted,
    }
}

/// Tells whether some cluster is called `name`.
pub fn has_cluster(clusters: &Vec<Cluster>, name: &[u8]) -> (r: bool)
    ensures
        r == is_listed(clusters@, name@),
{
    let mut i: usize = 0;
    while i < clusters.len()
        invariant
            i <= clusters.len(),
            forall|k: int| 0 <= k < i ==> (#[trigger] clusters@[k]).domain@ != name@,
        decreases clusters.len() - i,
    {
        if same_bytes(clusters[i].domain.as_slice(), name) {
            assert(clusters@[i as int].domain@ == name@);
            return true;
        }
        i += 1;
    }
    false
}

/// Looks up what a request wants and does not reach.
pub fn select_missing(directory: &Directory, region_id: &[u8], wanted: &Vec<Vec<u8>>) -> (r: Vec<
    Vec<u8>,
>)
    ensures
        views(r@) == beyond_reach(*directory, region_id@, views(wanted@)),
{
    let found = find_region(directory, region_id);
    let mut out: Vec<Vec<u8>> = Vec::new();
    let mut i: usize = 0;
    assert(views(wanted@).take(0) =~= Seq::<Seq<u8>>::empty());
    assert(views(out@) =~= Seq::<Seq<u8>>::empty());
    while i < wanted.len()
        invariant
            i <= wanted.len(),
            match found {
                Some(at) => region_index(directory.regions@, region_id@, 0) == Some(at as int)
                    && at < directory.regions@.len() && views(out@) == lacking(
                    directory.regions@[at as int].clusters@,
                    views(wanted@).take(i as int),
                ),
                None => region_index(directory.regions@, region_id@, 0) is None && views(out@)
                    == views(wanted@).take(i as int),
            },
        decreases wanted.len() - i,
    {
        proof {
            let upto = views(wanted@).take(i + 1);
            assert(upto.drop_last() =~= views(wanted@).take(i as int));
            assert(upto.last() == wanted@[i as int]@);
        }
        let lacks = match found {
            Some(at) => !has_cluster(&directory.regions[at].clusters, wanted[i].as_slice()),
            None => true,
        };
        if lacks {
            let copy = copy_range(wanted[i].as_slice(), 0, wanted[i].len());
            assert(copy@ =~= wanted@[i as int]@);
            let ghost before = views(out@);
            out.push(copy);
            assert(views(out@) =~= before.push(copy@));
            assert(views(wanted@).take(i as int).push(copy@) =~= views(wanted@).take(i + 1));
        }
        i += 1;
    }
    assert(views(wanted@).take(wanted.len() as int) =~= views(wanted@));
    out
}

/// Finds the first region called `id`.
pub fn find_region(directory: &Directory, id: &[u8]) -> (r: Option<usize>)
    ensures
        match r {
            Some(i) => region_index(directory.regions@, id@, 0) == Some(i as int) && i
                < directory.regions@.len(),
            None => region_index(directory.regions@, id@, 0) is None,
        },
{
    let mut i: usize = 0;
    while i < directory.regions.len()
        invariant
            i <= directory.regions.len(),
            region_index(directory.regions@, id@, 0) == region_index(
                directory.regions@,
                id@,
                i as int,
            ),
        decreases directory.regions.len() - i,
    {
        if same_bytes(directory.regions[i].id.as_slice(), id) {
            return Some(i);
        }
        i += 1;
    }
    None
}

/// Tells whether `name` is one of `list`.
pub fn is_among(list: &Vec<Vec<u8>>, name: &[u8]) -> (r: bool)
    ensures
        r == views(list@).contains(name@),
{
    let mut i: usize = 0;
    while i < list.len()
        invariant
            i <= list.len(),
            forall|k: int| 0 <= k < i ==> views(list@)[k] != name@,
        decreases list.len() - i,
    {
        if same_bytes(list[i].as_slice(), name) {
            assert(views(list@)[i as int] == name@);
            return true;
        }
        i += 1;
    }
    false
}

/// A copy of the texts of `ips` that are not empty.
fn copy_filled(ips: &Vec<Vec<u8>>) -> (r: Vec<Vec<u8>>)
    ensures
        views(r@) == filled(views(ips@)),
{
    let mut out: Vec<Vec<u8>> = Vec::new();
    let mut i: usize = 0;
    assert(views(ips@).take(0) =~= Seq::<Seq<u8>>::empty());
    assert(views(out@) =~= Seq::<Seq<u8>>::empty());
    while i < ips.len()
        invariant
            i <= ips.len(),
            views(out@) == filled(views(ips@).take(i as int)),
        decreases ips.len() - i,
    {
        proof {
            let upto = views(ips@).take(i + 1);
            assert(upto.drop_last() =~= views(ips@).take(i as int));
            assert(upto.last() == ips@[i as int]@);
        }
        if ips[i].len() > 0 {
            let copy = copy_range(ips[i].as_slice(), 0, ips[i].len());
            assert(copy@ =~= ips@[i as int]@);
            let ghost before = views(out@);
            out.push(copy);
            assert(views(out@) =~= before.push(copy@));
        }
        i += 1;
    }
    assert(views(ips@).take(ips.len() as int) =~= views(ips@));
    out
}

/// Looks up what a request reaches.
pub fn select_targets(directory: &Directory, region_id: &[u8], wanted: &Vec<Vec<u8>>) -> (r: Vec<
    Target,
>)
    ensures
        target_views(r@) == reached(*directory, region_id@, views(wanted@)),
{
    let mut out: Vec<Target> = Vec::new();
    match find_region(directory, region_id) {
        None => {
            assert(target_views(out@) =~= Seq::empty());
            out
        },
        Some(at) => {
            let clusters = &directory.regions[at].clusters;
            let mut i: usize = 0;
            assert(clusters@.take(0) =~= Seq::<Cluster>::empty());
            assert(target_views(out@) =~= Seq::empty());
            while i < clusters.len()
                invariant
                    i <= clusters.len(),
                    target_views(out@) == targets_of(clusters@.take(i as int), views(wanted@)),
                decreases clusters.len() - i,
            {
                proof {
                    let upto = clusters@.take(i + 1);
                    assert(upto.drop_last() =~= clusters@.take(i as int));
                    assert(upto.last() == clusters@[i as int]);
                }
                let cluster = &clusters[i];
                if is_among(wanted, cluster.domain.as_slice()) {
                    let domain = copy_range(cluster.domain.as_slice(), 0, cluster.domain.len());
                    assert(domain@ =~= cluster.domain@);
                    let ips = copy_filled(&cluster.ips);
                    let ghost before = target_views(out@);
                    let target = Target { domain, ips };
                    out.push(target);
                    assert(target_views(out@) =~= before.push((cluster.domain@, filled(views(
                        cluster.ips@,
                    )))));
                }
                i += 1;
            }
            assert(clusters@.take(clusters.len() as int) =~= clusters@);
            out
        },
    }
}

/// The rules for one address each: one rule for each address of `ips`, in order.
pub open spec fn each_ip_commands(domain: Seq<u8>, ips: Seq<Seq<u8>>, add: bool) -> Seq<CommandView> {
    Seq::new(
        ips.len(),
        |i: int|
            if add {
                CommandView::AddRule { name: ip_rule_name_of(domain, ips[i]), ips: seq![ips[i]] }
            } else {
                CommandView::DeleteRule { name: ip_rule_name_of(domain, ips[i]) }
            },
    )
}

/// What blocking a name begins with: the rule of the name goes, if it is there, and a
/// rule for all addresses at once is added.
pub open spec fn block_commands(domain: Seq<u8>, ips: Seq<Seq<u8>>) -> Seq<CommandView> {
    seq![
        CommandView::DeleteRule { name: rule_name_of(domain) },
        CommandView::AddRule { name: rule_name_of(domain), ips: ips },
    ]
}

/// What unblocking a name takes: the rule of the name goes, and the rule of each
/// address.
pub open spec fn unblock_commands(domain: Seq<u8>, ips: Seq<Seq<u8>>) -> Seq<CommandView> {
    seq![CommandView::DeleteRule { name: rule_name_of(domain) }] + each_ip_commands(
        domain,
        ips,
        false,
    )
}

/// A copy of a list of texts.
fn copy_list(list: &Vec<Vec<u8>>) -> (r: Vec<Vec<u8>>)
    ensures
        views(r@) == views(list@),
{
    let mut out: Vec<Vec<u8>> = Vec::new();
    let mut i: usize = 0;
    while i < list.len()
        invariant
            i <= list.len(),
            views(out@) == views(list@).take(i as int),
        decreases list.len() - i,
    {
        let copy = copy_range(list[i].as_slice(), 0, list[i].len());
        assert(copy@ =~= list@[i as int]@);
        let ghost before = views(out@);
        out.push(copy);
        assert(views(out@) =~= before.push(copy@));
        assert(views(list@).take(i as int).push(copy@) =~= views(list@).take(i + 1));
        i += 1;
    }
    assert(views(list@).take(list.len() as int) =~= views(list@));
    out
}

/// The commands with which blocking, or unblocking, a name begins.
pub fn first_commands(target: &Target, enable: bool) -> (r: Vec<Command>)
    ensures
        enable ==> command_views(r@) == block_commands(target@.0, target@.1),
        !enable ==> command_views(r@) == unblock_commands(target@.0, target@.1),
{
    let mut out: Vec<Command> = Vec::new();
    out.push(Command::DeleteRule { name: rule_name(target.domain.as_slice()) });
    if enable {
        out.push(
            Command::AddRule {
                name: rule_name(target.domain.as_slice()),
                ips: copy_list(&target.ips),
            },
        );
        assert(command_views(out@) =~= block_commands(target@.0, target@.1));
        out
    } else {
        let ghost head = command_views(out@);
        assert(head =~= seq![CommandView::DeleteRule { name: rule_name_of(target@.0) }]);
        let mut rest = each_ip(target, false);
        let ghost tail = command_views(rest@);
        out.append(&mut rest);
        assert(command_views(out@) =~= head + tail);
        out
    }
}

/// One command for each address of the target: to add its rule, or to delete it.
pub fn each_ip(target: &Target, add: bool) -> (r: Vec<Command>)
    ensures
        command_views(r@) == each_ip_commands(target@.0, target@.1, add),
{
    let mut out: Vec<Command> = Vec::new();
    let mut i: usize = 0;
    while i < target.ips.len()
        invariant
            i <= target.ips.len(),
            command_views(out@) == each_ip_commands(target@.0, target@.1, add).take(i as int),
        decreases target.ips.len() - i,
    {
        let ip = target.ips[i].as_slice();
        let name = ip_rule_name(target.domain.as_slice(), ip);
        let ghost before = command_views(out@);
        if add {
            let mut one: Vec<Vec<u8>> = Vec::new();
            let copy = copy_range(ip, 0, ip.len());
            assert(copy@ =~= ip@);
            one.push(copy);
            assert(views(one@) =~= seq![ip@]);
            out.push(Command::AddRule { name, ips: one });
        } else {
            out.push(Command::DeleteRule { name });
        }
        proof {
            let all = each_ip_commands(target@.0, target@.1, add);
            assert(command_views(out@) =~= before.push(all[i as int]));
            assert(all.take(i as int).push(all[i as int]) =~= all.take(i + 1));
        }
        i += 1;
    }
    assert(each_ip_commands(target@.0, target@.1, add).take(target.ips.len() as int)
        =~= each_ip_commands(target@.0, target@.1, add));
    out
}

/// What to make of the reply to the rule for all addresses at once.
#[derive(Clone, Copy, PartialEq, Eq, Structural, Debug)]
pub enum AddVerdict {
    /// The rule stands.
    Created,
    /// The firewall turned the list of addresses down: add one rule for each address.
    TryEachIp,
    /// The rule could not be made.
    Failed,
}

/// The verdict on a reply: a failure that speaks of `remoteip` is the firewall turning
/// the list of addresses down.
pub open spec fn verdict_of(reply: Reply) -> AddVerdict {
    match reply {
        Reply::Done => AddVerdict::Created,
        Reply::Failed { detail } => if contains(detail@, utf8("remoteip")) {
            AddVerdict::TryEachIp
        } else {
            AddVerdict::Failed
        },
        Reply::NotRun { detail } => AddVerdict::Failed,
    }
}

/// Judges the reply to the rule for all addresses at once.
pub fn judge_add(reply: &Reply) -> (r: AddVerdict)
    ensures
        r == verdict_of(*reply),
{
    match reply {
        Reply::Done => AddVerdict::Created,
        Reply::Failed { detail } => {
            let key: &str = "remoteip";
            if includes(detail.as_slice(), key.as_bytes()) {
                AddVerdict::TryEachIp
            } else {
                AddVerdict::Failed
            }
        },
        Reply::NotRun { detail } => AddVerdict::Failed,
    }
}

} // verus!
