//! Host entries and the ordered list they are gathered in.
use vstd::prelude::*;

use crate::text::{chars_of, split_words, string_of, words};

verus! {

/// What a host entry is: an address literal and a name.
pub struct HostView {
    pub ip: Seq<char>,
    pub hostname: Seq<char>,
}

#[derive(Debug, Clone)]
pub struct Host {
    pub hostname: String,
    pub ip: String,
}

impl View for Host {
    type V = HostView;

    open spec fn view(&self) -> HostView {
        HostView { ip: self.ip@, hostname: self.hostname@ }
    }
}

impl PartialEq for Host {
    fn eq(&self, o: &Host) -> (r: bool)
        ensures
            r == (self@ == o@),
    {
        self.hostname == o.hostname && self.ip == o.ip
    }
}

impl vstd::std_specs::cmp::PartialEqSpecImpl for Host {
    open spec fn obeys_eq_spec() -> bool {
        true
    }

    open spec fn eq_spec(&self, o: &Host) -> bool {
        self@ == o@
    }
}

impl Eq for Host {

}

/// A host entry as it stands in a hosts file: the address, a tab, the name.
pub open spec fn host_line(h: HostView) -> Seq<char> {
    h.ip + seq!['\t'] + h.hostname
}

/// The entries as a hosts file lists them, one per line, without a final line ending.
pub open spec fn hosts_text(hs: Seq<HostView>) -> Seq<char>
    decreases hs.len(),
{
    if hs.len() == 0 {
        seq![]
    } else if hs.len() == 1 {
        host_line(hs[0])
    } else {
        hosts_text(hs.drop_last()) + seq!['\n'] + host_line(hs.last())
    }
}

/// The entry that a line of exactly two words gives: the address, then the name.
pub open spec fn entry_of(s: Seq<char>) -> Option<HostView> {
    let w = words(s);
    if w.len() == 2 {
        Some(HostView { ip: w[0], hostname: w[1] })
    } else {
        None
    }
}

/// The entries other than `h`, in their order.
pub open spec fn without(hs: Seq<HostView>, h: HostView) -> Seq<HostView> {
    hs.filter(|x: HostView| x != h)
}

impl Host {
    pub fn new(hostname: String, ip: String) -> (r: Self)
        ensures
            r.hostname@ == hostname@,
            r.ip@ == ip@,
    {
        Host { hostname, ip }
    }

    /// Reads an entry of the form `<ip> <hostname>`; any other number of words gives `None`.
    pub fn parse_entry(entry: &str) -> (r: Option<Self>)
        ensures
            r is Some <==> entry_of(entry@) is Some,
            r is Some ==> r->0@ == entry_of(entry@)->0,
    {
        let chars = chars_of(entry);
        let parts = split_words(&chars);
        if parts.len() != 2 {
            return None;
        }
        let ip = string_of(&parts[0]);
        let hostname = string_of(&parts[1]);
        Some(Host::new(hostname, ip))
    }

    pub fn to_string(&self) -> (r: String)
        ensures
            r@ == host_line(self@),
    {
        let mut out = chars_of(self.ip.as_str());
        out.push('\t');
        let name = chars_of(self.hostname.as_str());
        let mut i: usize = 0;
        let ghost start = out@;
        while i < name.len()
            invariant
                i <= name@.len(),
                out@ == start + name@.take(i as int),
            decreases name@.len() - i,
        {
            out.push(name[i]);
            i = i + 1;
            assert(out@ =~= start + name@.take(i as int));
        }
        assert(name@.take(name@.len() as int) =~= name@);
        assert(start =~= self.ip@ + seq!['\t']);
        string_of(&out)
    }

    /// A copy of the entry.
    pub fn duplicate(&self) -> (r: Host)
        ensures
            r@ == self@,
    {
        Host { hostname: self.hostname.clone(), ip: self.ip.clone() }
    }
}

/// An ordered list of host entries; it keeps duplicates.
#[derive(Debug)]
pub struct Hosts {
    pub hosts: Vec<Host>,
}

impl View for Hosts {
    type V = Seq<HostView>;

    open spec fn view(&self) -> Seq<HostView> {
        self.hosts@.map_values(|h: Host| h@)
    }
}

impl Hosts {
    pub fn new() -> (r: Self)
        ensures
            r@ == Seq::<HostView>::empty(),
    {
        Hosts { hosts: Vec::new() }
    }

    pub fn from(entries: Vec<Host>) -> (r: Self)
        ensures
            r@ == entries@.map_values(|h: Host| h@),
    {
        Hosts { hosts: entries }
    }

    pub fn add(&mut self, host: Host)
        ensures
            final(self)@ == old(self)@.push(host@),
    {
        self.hosts.push(host);
        assert(self@ =~= old(self)@.push(host@));
    }

    /// Appends every entry of `other`, in its order.
    pub fn extend(&mut self, other: &Hosts)
        ensures
            final(self)@ == old(self)@ + other@,
    {
        let mut i: usize = 0;
        while i < other.hosts.len()
            invariant
                i <= other@.len(),
                self@ == old(self)@ + other@.take(i as int),
            decreases other@.len() - i,
        {
            let h = other.hosts[i].duplicate();
            self.add(h);
            i = i + 1;
            assert(self@ =~= old(self)@ + other@.take(i as int));
        }
        assert(other@.take(other@.len() as int) =~= other@);
    }

    /// Removes every entry equal to `host`, keeping the order of the others.
    pub fn remove(&mut self, host: &Host)
        ensures
            final(self)@ == without(old(self)@, host@),
    {
        let ghost before = self@;
        let mut kept: Vec<Host> = Vec::new();
        let mut i: usize = 0;
        while i < self.hosts.len()
            invariant
                i <= self@.len(),
                self@ == before,
                kept@.map_values(|h: Host| h@) == before.take(i as int).filter(|x: HostView| x != host@),
            decreases self@.len() - i,
        {
            proof {
                reveal(Seq::filter);
                assert(before.take(i + 1).drop_last() =~= before.take(i as int));
            }
            let ghost s1 = before.take(i + 1);
            assert(s1.last() == before[i as int]);
            assert(s1.filter(|x: HostView| x != host@) == if s1.last() != host@ {
                s1.drop_last().filter(|x: HostView| x != host@).push(s1.last())
            } else {
                s1.drop_last().filter(|x: HostView| x != host@)
            });
            assert(before[i as int] == self.hosts@[i as int]@);
            let ghost km = kept@.map_values(|h: Host| h@);
            let same = self.hosts[i].eq(host);
            assert(same == (before[i as int] == host@));
            if !same {
                let h = self.hosts[i].duplicate();
                kept.push(h);
                assert(kept@.map_values(|h: Host| h@) =~= km.push(h@));
                
            } else {
                
            }
            assert(kept@.map_values(|h: Host| h@) == s1.filter(|x: HostView| x != host@));
            i = i + 1;
        }
        assert(before.take(before.len() as int) =~= before);
        self.hosts = kept;
    }

    /// The entries one per line, each as `<ip>\t<hostname>`.
    pub fn to_string(&self) -> (r: String)
        ensures
            r@ == hosts_text(self@),
    {
        let mut out: Vec<char> = Vec::new();
        let mut i: usize = 0;
        while i < self.hosts.len()
            invariant
                i <= self@.len(),
                out@ == hosts_text(self@.take(i as int)),
            decreases self@.len() - i,
        {
            if i > 0 {
                out.push('\n');
            }
            let line = chars_of(self.hosts[i].to_string().as_str());
            let ghost mid = out@;
            let mut k: usize = 0;
            while k < line.len()
                invariant
                    k <= line@.len(),
                    out@ == mid + line@.take(k as int),
                decreases line@.len() - k,
            {
                out.push(line[k]);
                k = k + 1;
                assert(out@ =~= mid + line@.take(k as int));
            }
            assert(line@.take(line@.len() as int) =~= line@);
            assert(self@.take(i + 1).drop_last() =~= self@.take(i as int));
            i = i + 1;
        }
        assert(self@.take(self@.len() as int) =~= self@);
        string_of(&out)
    }
}

/// The first line of a written hosts file.
pub open spec fn file_header() -> Seq<char> {
    "# Generated automatically by drophost\n"@
}

/// Each entry as a line of a hosts file, line ending included.
pub open spec fn entry_lines(hs: Seq<HostView>) -> Seq<char>
    decreases hs.len(),
{
    if hs.len() == 0 {
        seq![]
    } else {
        entry_lines(hs.drop_last()) + host_line(hs.last()) + seq!['\n']
    }
}

/// The text of the hosts file for these entries: the header, then one line per entry.
pub fn render_hosts_file(hosts: &Hosts) -> (r: String)
    ensures
        r@ == file_header() + entry_lines(hosts@),
{
    let mut out = chars_of("# Generated automatically by drophost\n");
    let ghost head = out@;
    let mut i: usize = 0;
    while i < hosts.hosts.len()
        invariant
            i <= hosts@.len(),
            head == file_header(),
            out@ == head + entry_lines(hosts@.take(i as int)),
        decreases hosts@.len() - i,
    {
        let line = chars_of(hosts.hosts[i].to_string().as_str());
        let ghost mid = out@;
        let mut k: usize = 0;
        while k < line.len()
            invariant
                k <= line@.len(),
                out@ == mid + line@.take(k as int),
            decreases line@.len() - k,
        {
            out.push(line[k]);
            k = k + 1;
            assert(out@ =~= mid + line@.take(k as int));
        }
        out.push('\n');
        assert(line@.take(line@.len() as int) =~= line@);
        assert(hosts@.take(i + 1).drop_last() =~= hosts@.take(i as int));
        i = i + 1;
        assert(out@ =~= head + entry_lines(hosts@.take(i as int)));
    }
    assert(hosts@.take(hosts@.len() as int) =~= hosts@);
    string_of(&out)
}

} // verus!
