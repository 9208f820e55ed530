use vstd::prelude::*;

use crate::text::{
    chars_of, contains_chars, is_substring, parse_u64, parse_u64_chars, pieces_view, split_on,
    split_on_char, split_whitespace_chars, words,
};

verus! {

broadcast use vstd::string::group_string_axioms;

/// Kind of relation an observed flow adds between two entities.
#[derive(Debug, Clone, Copy, PartialEq, Eq, Hash, Structural)]
pub enum EdgeType {
    ObservedWith,
    AuthenticatedTo,
    CommunicatedWith,
    ReverseCommunicatedWith,
}

impl EdgeType {
    /// The relation's name.
    pub fn as_str(self) -> (r: &'static str)
        ensures
            r@ == match self {
                EdgeType::ObservedWith => "ObservedWith"@,
                EdgeType::AuthenticatedTo => "AuthenticatedTo"@,
                EdgeType::CommunicatedWith => "CommunicatedWith"@,
                EdgeType::ReverseCommunicatedWith => "ReverseCommunicatedWith"@,
            },
    {
        match self {
            EdgeType::ObservedWith => "ObservedWith",
            EdgeType::AuthenticatedTo => "AuthenticatedTo",
            EdgeType::CommunicatedWith => "CommunicatedWith",
            EdgeType::ReverseCommunicatedWith => "ReverseCommunicatedWith",
        }
    }

    /// The relation's wire code (`1` to `4`).
    pub fn code(self) -> (r: u16)
        ensures
            r == match self {
                EdgeType::ObservedWith => 1u16,
                EdgeType::AuthenticatedTo => 2u16,
                EdgeType::CommunicatedWith => 3u16,
                EdgeType::ReverseCommunicatedWith => 4u16,
            },
    {
        match self {
            EdgeType::ObservedWith => 1,
            EdgeType::AuthenticatedTo => 2,
            EdgeType::CommunicatedWith => 3,
            EdgeType::ReverseCommunicatedWith => 4,
        }
    }
}

/// A security-relevant entity observed in network traffic.
#[derive(Debug, Clone, PartialEq, Eq, Hash)]
pub enum Entity {
    User(String),
    Host(String),
    IpAddress(String),
}

/// The display text of an entity: a kind prefix and its name.
pub open spec fn entity_text(e: Entity) -> Seq<char> {
    match e {
        Entity::User(s) => "User:"@ + s@,
        Entity::Host(s) => "Host:"@ + s@,
        Entity::IpAddress(s) => "Ip:"@ + s@,
    }
}

impl Entity {
    /// Display text, e.g. `Ip:10.0.0.1`.
    pub fn to_string(&self) -> (r: String)
        ensures
            r@ == entity_text(*self),
    {
        match self {
            Entity::User(s) => String::from_str("User:").concat(s.as_str()),
            Entity::Host(s) => String::from_str("Host:").concat(s.as_str()),
            Entity::IpAddress(s) => String::from_str("Ip:").concat(s.as_str()),
        }
    }
}

/// Alert severity, ordered from least to most severe.
#[derive(Debug, Clone, Copy, PartialEq, Eq, Hash, PartialOrd, Ord, Structural)]
pub enum Severity {
    Info,
    Low,
    Medium,
    High,
    Critical,
}

impl Severity {
    /// Display text of the severity.
    pub fn as_str(self) -> (r: &'static str)
        ensures
            r@ == match self {
                Severity::Info => "INFO"@,
                Severity::Low => "LOW"@,
                Severity::Medium => "MEDIUM"@,
                Severity::High => "HIGH"@,
                Severity::Critical => "CRITICAL"@,
            },
    {
        match self {
            Severity::Info => "INFO",
            Severity::Low => "LOW",
            Severity::Medium => "MEDIUM",
            Severity::High => "HIGH",
            Severity::Critical => "CRITICAL",
        }
    }

    /// Rank of the severity, `0` for `Info` up to `4` for `Critical`.
    pub fn rank(self) -> (r: u8)
        ensures
            r == match self {
                Severity::Info => 0u8,
                Severity::Low => 1u8,
                Severity::Medium => 2u8,
                Severity::High => 3u8,
                Severity::Critical => 4u8,
            },
    {
        match self {
            Severity::Info => 0,
            Severity::Low => 1,
            Severity::Medium => 2,
            Severity::High => 3,
            Severity::Critical => 4,
        }
    }
}

/// A MITRE ATT&CK tactic matched from a dataset label.
#[derive(Debug, Clone)]
pub struct MitreTactic {
    pub tactic_id: String,
    pub tactic_name: String,
    pub technique: String,
    pub trigger_token: String,
}

/// The keyword vocabulary: `(keyword, tactic id, tactic name, technique)`,
/// tried in this order.
pub open spec fn mitre_vocab() -> Seq<(Seq<char>, Seq<char>, Seq<char>, Seq<char>)> {
    seq![
        ("exploit"@, "TA0001"@, "Initial Access"@, "T1190 – Exploit Public-Facing App"@),
        ("overflow"@, "TA0002"@, "Execution"@, "T1203 – Exploitation for Client Execution"@),
        ("rce"@, "TA0002"@, "Execution"@, "T1203 – Remote Code Execution"@),
        ("shellcode"@, "TA0002"@, "Execution"@, "T1059 – Command Scripting Interpreter"@),
        ("escalation"@, "TA0004"@, "Privilege Escalation"@, "T1068 – Exploitation for Priv Escalation"@),
        ("sudo"@, "TA0004"@, "Privilege Escalation"@, "T1548 – Abuse Elevation Control Mechanism"@),
        ("lateral"@, "TA0008"@, "Lateral Movement"@, "T1021 – Remote Services"@),
        ("mimikatz"@, "TA0006"@, "Credential Access"@, "T1003 – OS Credential Dumping"@),
        ("credential"@, "TA0006"@, "Credential Access"@, "T1552 – Unsecured Credentials"@),
        ("exfil"@, "TA0010"@, "Exfiltration"@, "T1041 – Exfiltration Over C2 Channel"@),
        ("c2"@, "TA0011"@, "Command and Control"@, "T1071 – Application Layer Protocol"@),
        ("beacon"@, "TA0011"@, "Command and Control"@, "T1071 – Application Layer Protocol"@),
        ("ransomware"@, "TA0040"@, "Impact"@, "T1486 – Data Encrypted for Impact"@),
        ("ddos"@, "TA0040"@, "Impact"@, "T1498 – Network Denial of Service"@),
        ("dos"@, "TA0040"@, "Impact"@, "T1499 – Endpoint Denial of Service"@),
        ("injection"@, "TA0002"@, "Execution"@, "T1055 – Process Injection"@),
        ("persistence"@, "TA0003"@, "Persistence"@, "T1053 – Scheduled Task/Job"@),
        ("backdoor"@, "TA0003"@, "Persistence"@, "T1505 – Server Software Component"@),
        ("cve"@, "TA0001"@, "Initial Access"@, "T1190 – Known Vulnerability Exploitation"@),
        ("brute"@, "TA0006"@, "Credential Access"@, "T1110 – Brute Force"@),
        ("spray"@, "TA0006"@, "Credential Access"@, "T1110 – Password Spraying"@),
        ("phish"@, "TA0001"@, "Initial Access"@, "T1566 – Phishing"@),
        ("scan"@, "TA0043"@, "Reconnaissance"@, "T1046 – Network Service Scanning"@),
        ("recon"@, "TA0043"@, "Reconnaissance"@, "T1595 – Active Scanning"@),
        ("obfuscat"@, "TA0005"@, "Defense Evasion"@, "T1027 – Obfuscated Files or Information"@),
        ("rootkit"@, "TA0005"@, "Defense Evasion"@, "T1014 – Rootkit"@),
        ("bypass"@, "TA0005"@, "Defense Evasion"@, "T1562 – Impair Defenses"@),
        ("infilter"@, "TA0008"@, "Lateral Movement"@, "T1021 – Remote Services (Infiltration)"@),
        ("hulk"@, "TA0040"@, "Impact"@, "T1499 – Endpoint Denial of Service"@),
        ("goldeneye"@, "TA0040"@, "Impact"@, "T1499 – Endpoint Denial of Service"@),
        ("slowhttp"@, "TA0040"@, "Impact"@, "T1499 – Application Exhaustion Flood"@),
        ("slowloris"@, "TA0040"@, "Impact"@, "T1499 – Application Exhaustion Flood"@),
        ("loic"@, "TA0040"@, "Impact"@, "T1498 – Network Denial of Service"@),
        ("heartbleed"@, "TA0001"@, "Initial Access"@, "T1190 – OpenSSL Heartbleed CVE-2014-0160"@),
        ("xss"@, "TA0002"@, "Execution"@, "T1059.007 – Cross-Site Scripting"@),
        ("sql"@, "TA0001"@, "Initial Access"@, "T1190 – SQL Injection"@),
        ("bot"@, "TA0011"@, "Command and Control"@, "T1071 – Application Layer Protocol (Botnet)"@),
        ("ftpbrute"@, "TA0006"@, "Credential Access"@, "T1110 – Brute Force FTP"@),
        ("wiper"@, "TA0040"@, "Impact"@, "T1485 – Data Destruction"@),
        ("ftp"@, "TA0006"@, "Credential Access"@, "T1110 – Brute Force FTP"@),
    ]
}

/// Law: the vocabulary holds exactly these forty entries in this order,
/// so that the first keyword found decides the tactic (for example `rce`,
/// at position 2, wins over `xss`, at position 34, in "brute force -xss").
pub proof fn lemma_mitre_vocabulary()
    ensures
        mitre_vocab().len() == 40,
        mitre_vocab()[0] == ("exploit"@, "TA0001"@, "Initial Access"@, "T1190 – Exploit Public-Facing App"@),
        mitre_vocab()[1] == ("overflow"@, "TA0002"@, "Execution"@, "T1203 – Exploitation for Client Execution"@),
        mitre_vocab()[2] == ("rce"@, "TA0002"@, "Execution"@, "T1203 – Remote Code Execution"@),
        mitre_vocab()[3] == ("shellcode"@, "TA0002"@, "Execution"@, "T1059 – Command Scripting Interpreter"@),
        mitre_vocab()[4] == ("escalation"@, "TA0004"@, "Privilege Escalation"@, "T1068 – Exploitation for Priv Escalation"@),
        mitre_vocab()[5] == ("sudo"@, "TA0004"@, "Privilege Escalation"@, "T1548 – Abuse Elevation Control Mechanism"@),
        mitre_vocab()[6] == ("lateral"@, "TA0008"@, "Lateral Movement"@, "T1021 – Remote Services"@),
        mitre_vocab()[7] == ("mimikatz"@, "TA0006"@, "Credential Access"@, "T1003 – OS Credential Dumping"@),
        mitre_vocab()[8] == ("credential"@, "TA0006"@, "Credential Access"@, "T1552 – Unsecured Credentials"@),
        mitre_vocab()[9] == ("exfil"@, "TA0010"@, "Exfiltration"@, "T1041 – Exfiltration Over C2 Channel"@),
        mitre_vocab()[10] == ("c2"@, "TA0011"@, "Command and Control"@, "T1071 – Application Layer Protocol"@),
        mitre_vocab()[11] == ("beacon"@, "TA0011"@, "Command and Control"@, "T1071 – Application Layer Protocol"@),
        mitre_vocab()[12] == ("ransomware"@, "TA0040"@, "Impact"@, "T1486 – Data Encrypted for Impact"@),
        mitre_vocab()[13] == ("ddos"@, "TA0040"@, "Impact"@, "T1498 – Network Denial of Service"@),
        mitre_vocab()[14] == ("dos"@, "TA0040"@, "Impact"@, "T1499 – Endpoint Denial of Service"@),
        mitre_vocab()[15] == ("injection"@, "TA0002"@, "Execution"@, "T1055 – Process Injection"@),
        mitre_vocab()[16] == ("persistence"@, "TA0003"@, "Persistence"@, "T1053 – Scheduled Task/Job"@),
        mitre_vocab()[17] == ("backdoor"@, "TA0003"@, "Persistence"@, "T1505 – Server Software Component"@),
        mitre_vocab()[18] == ("cve"@, "TA0001"@, "Initial Access"@, "T1190 – Known Vulnerability Exploitation"@),
        mitre_vocab()[19] == ("brute"@, "TA0006"@, "Credential Access"@, "T1110 – Brute Force"@),
        mitre_vocab()[20] == ("spray"@, "TA0006"@, "Credential Access"@, "T1110 – Password Spraying"@),
        mitre_vocab()[21] == ("phish"@, "TA0001"@, "Initial Access"@, "T1566 – Phishing"@),
        mitre_vocab()[22] == ("scan"@, "TA0043"@, "Reconnaissance"@, "T1046 – Network Service Scanning"@),
        mitre_vocab()[23] == ("recon"@, "TA0043"@, "Reconnaissance"@, "T1595 – Active Scanning"@),
        mitre_vocab()[24] == ("obfuscat"@, "TA0005"@, "Defense Evasion"@, "T1027 – Obfuscated Files or Information"@),
        mitre_vocab()[25] == ("rootkit"@, "TA0005"@, "Defense Evasion"@, "T1014 – Rootkit"@),
        mitre_vocab()[26] == ("bypass"@, "TA0005"@, "Defense Evasion"@, "T1562 – Impair Defenses"@),
        mitre_vocab()[27] == ("infilter"@, "TA0008"@, "Lateral Movement"@, "T1021 – Remote Services (Infiltration)"@),
        mitre_vocab()[28] == ("hulk"@, "TA0040"@, "Impact"@, "T1499 – Endpoint Denial of Service"@),
        mitre_vocab()[29] == ("goldeneye"@, "TA0040"@, "Impact"@, "T1499 – Endpoint Denial of Service"@),
        mitre_vocab()[30] == ("slowhttp"@, "TA0040"@, "Impact"@, "T1499 – Application Exhaustion Flood"@),
        mitre_vocab()[31] == ("slowloris"@, "TA0040"@, "Impact"@, "T1499 – Application Exhaustion Flood"@),
        mitre_vocab()[32] == ("loic"@, "TA0040"@, "Impact"@, "T1498 – Network Denial of Service"@),
        mitre_vocab()[33] == ("heartbleed"@, "TA0001"@, "Initial Access"@, "T1190 – OpenSSL Heartbleed CVE-2014-0160"@),
        mitre_vocab()[34] == ("xss"@, "TA0002"@, "Execution"@, "T1059.007 – Cross-Site Scripting"@),
        mitre_vocab()[35] == ("sql"@, "TA0001"@, "Initial Access"@, "T1190 – SQL Injection"@),
        mitre_vocab()[36] == ("bot"@, "TA0011"@, "Command and Control"@, "T1071 – Application Layer Protocol (Botnet)"@),
        mitre_vocab()[37] == ("ftpbrute"@, "TA0006"@, "Credential Access"@, "T1110 – Brute Force FTP"@),
        mitre_vocab()[38] == ("wiper"@, "TA0040"@, "Impact"@, "T1485 – Data Destruction"@),
        mitre_vocab()[39] == ("ftp"@, "TA0006"@, "Credential Access"@, "T1110 – Brute Force FTP"@),
{
}

/// The vocabulary as string slices.
fn mitre_vocab_table() -> (v: Vec<(&'static str, &'static str, &'static str, &'static str)>)
    ensures
        v@.len() == mitre_vocab().len(),
        forall|i: int| 0 <= i < v@.len() ==> (#[trigger] v@[i]).0@ == mitre_vocab()[i].0
            && v@[i].1@ == mitre_vocab()[i].1 && v@[i].2@ == mitre_vocab()[i].2 && v@[i].3@ == mitre_vocab()[i].3,
{
    let mut v: Vec<(&'static str, &'static str, &'static str, &'static str)> = Vec::new();
    v.push(("exploit", "TA0001", "Initial Access", "T1190 – Exploit Public-Facing App"));
    v.push(("overflow", "TA0002", "Execution", "T1203 – Exploitation for Client Execution"));
    v.push(("rce", "TA0002", "Execution", "T1203 – Remote Code Execution"));
    v.push(("shellcode", "TA0002", "Execution", "T1059 – Command Scripting Interpreter"));
    v.push(("escalation", "TA0004", "Privilege Escalation", "T1068 – Exploitation for Priv Escalation"));
    v.push(("sudo", "TA0004", "Privilege Escalation", "T1548 – Abuse Elevation Control Mechanism"));
    v.push(("lateral", "TA0008", "Lateral Movement", "T1021 – Remote Services"));
    v.push(("mimikatz", "TA0006", "Credential Access", "T1003 – OS Credential Dumping"));
    v.push(("credential", "TA0006", "Credential Access", "T1552 – Unsecured Credentials"));
    v.push(("exfil", "TA0010", "Exfiltration", "T1041 – Exfiltration Over C2 Channel"));
    v.push(("c2", "TA0011", "Command and Control", "T1071 – Application Layer Protocol"));
    v.push(("beacon", "TA0011", "Command and Control", "T1071 – Application Layer Protocol"));
    v.push(("ransomware", "TA0040", "Impact", "T1486 – Data Encrypted for Impact"));
    v.push(("ddos", "TA0040", "Impact", "T1498 – Network Denial of Service"));
    v.push(("dos", "TA0040", "Impact", "T1499 – Endpoint Denial of Service"));
    v.push(("injection", "TA0002", "Execution", "T1055 – Process Injection"));
    v.push(("persistence", "TA0003", "Persistence", "T1053 – Scheduled Task/Job"));
    v.push(("backdoor", "TA0003", "Persistence", "T1505 – Server Software Component"));
    v.push(("cve", "TA0001", "Initial Access", "T1190 – Known Vulnerability Exploitation"));
    v.push(("brute", "TA0006", "Credential Access", "T1110 – Brute Force"));
    v.push(("spray", "TA0006", "Credential Access", "T1110 – Password Spraying"));
    v.push(("phish", "TA0001", "Initial Access", "T1566 – Phishing"));
    v.push(("scan", "TA0043", "Reconnaissance", "T1046 – Network Service Scanning"));
    v.push(("recon", "TA0043", "Reconnaissance", "T1595 – Active Scanning"));
    v.push(("obfuscat", "TA0005", "Defense Evasion", "T1027 – Obfuscated Files or Information"));
    v.push(("rootkit", "TA0005", "Defense Evasion", "T1014 – Rootkit"));
    v.push(("bypass", "TA0005", "Defense Evasion", "T1562 – Impair Defenses"));
    v.push(("infilter", "TA0008", "Lateral Movement", "T1021 – Remote Services (Infiltration)"));
    v.push(("hulk", "TA0040", "Impact", "T1499 – Endpoint Denial of Service"));
    v.push(("goldeneye", "TA0040", "Impact", "T1499 – Endpoint Denial of Service"));
    v.push(("slowhttp", "TA0040", "Impact", "T1499 – Application Exhaustion Flood"));
    v.push(("slowloris", "TA0040", "Impact", "T1499 – Application Exhaustion Flood"));
    v.push(("loic", "TA0040", "Impact", "T1498 – Network Denial of Service"));
    v.push(("heartbleed", "TA0001", "Initial Access", "T1190 – OpenSSL Heartbleed CVE-2014-0160"));
    v.push(("xss", "TA0002", "Execution", "T1059.007 – Cross-Site Scripting"));
    v.push(("sql", "TA0001", "Initial Access", "T1190 – SQL Injection"));
    v.push(("bot", "TA0011", "Command and Control", "T1071 – Application Layer Protocol (Botnet)"));
    v.push(("ftpbrute", "TA0006", "Credential Access", "T1110 – Brute Force FTP"));
    v.push(("wiper", "TA0040", "Impact", "T1485 – Data Destruction"));
    v.push(("ftp", "TA0006", "Credential Access", "T1110 – Brute Force FTP"));
    v
}

/// The Unicode lower-case mapping of a string.
pub uninterp spec fn unicode_lowercase(s: Seq<char>) -> Seq<char>;

/// Calls `str::to_lowercase`; its result is the Unicode lower-case mapping
/// of the argument, which this contract names and does not spell out.
#[verifier::external_body]
fn lowercase(s: &str) -> (r: String)
    ensures
        r@ == unicode_lowercase(s@),
{
    s.to_lowercase()
}

/// The tactic of the first vocabulary entry whose keyword occurs in an
/// already lower-cased label, or `None` when no keyword occurs.
pub fn classify_lowercased(lower: &str) -> (r: Option<MitreTactic>)
    ensures
        r is None <==> forall|i: int| 0 <= i < mitre_vocab().len() ==>
            !is_substring(lower@, #[trigger] mitre_vocab()[i].0),
        r matches Some(t) ==> exists|i: int| 0 <= i < mitre_vocab().len()
            && is_substring(lower@, #[trigger] mitre_vocab()[i].0)
            && (forall|j: int| 0 <= j < i ==> !is_substring(lower@, #[trigger] mitre_vocab()[j].0))
            && t.trigger_token@ == mitre_vocab()[i].0 && t.tactic_id@ == mitre_vocab()[i].1
            && t.tactic_name@ == mitre_vocab()[i].2 && t.technique@ == mitre_vocab()[i].3,
{
    let lower_chars = chars_of(lower);
    let vocab = mitre_vocab_table();
    let ghost l = lower@;
    for k in 0..vocab.len()
        invariant
            lower_chars@ == l,
            l == lower@,
            vocab@.len() == mitre_vocab().len(),
            forall|i: int| 0 <= i < vocab@.len() ==> (#[trigger] vocab@[i]).0@ == mitre_vocab()[i].0
                && vocab@[i].1@ == mitre_vocab()[i].1 && vocab@[i].2@ == mitre_vocab()[i].2 && vocab@[i].3@ == mitre_vocab()[i].3,
            forall|j: int| 0 <= j < k ==> !is_substring(l, #[trigger] mitre_vocab()[j].0),
    {
        let (kw, tid, tname, tech) = vocab[k];
        let kw_chars = chars_of(kw);
        assert(vocab@[k as int].0@ == mitre_vocab()[k as int].0);
        if contains_chars(&lower_chars, &kw_chars) {
            proof {
                let i = k as int;
                assert(kw@ == mitre_vocab()[i].0 && tid@ == mitre_vocab()[i].1);
                assert(tname@ == mitre_vocab()[i].2 && tech@ == mitre_vocab()[i].3);
                assert(is_substring(lower@, mitre_vocab()[i].0));
            }
            return Some(MitreTactic {
                tactic_id: String::from_str(tid),
                tactic_name: String::from_str(tname),
                technique: String::from_str(tech),
                trigger_token: String::from_str(kw),
            });
        }
    }
    None
}

/// Map a CIC-IDS2018 label string to the best-matching MITRE ATT&CK tactic:
/// the first vocabulary entry whose keyword occurs in the lower-cased label.
pub fn classify_mitre_from_label(label: &str) -> (r: Option<MitreTactic>)
    ensures
        r is None <==> forall|i: int| 0 <= i < mitre_vocab().len() ==>
            !is_substring(unicode_lowercase(label@), #[trigger] mitre_vocab()[i].0),
        r matches Some(t) ==> exists|i: int| 0 <= i < mitre_vocab().len()
            && is_substring(unicode_lowercase(label@), #[trigger] mitre_vocab()[i].0)
            && (forall|j: int| 0 <= j < i ==> !is_substring(unicode_lowercase(label@), #[trigger] mitre_vocab()[j].0))
            && t.trigger_token@ == mitre_vocab()[i].0 && t.tactic_id@ == mitre_vocab()[i].1
            && t.tactic_name@ == mitre_vocab()[i].2 && t.technique@ == mitre_vocab()[i].3,
{
    let lower = lowercase(label);
    classify_lowercased(lower.as_str())
}

/// The relation a flow row adds between its endpoints: remote-login ports
/// over TCP are authentication, web ports over TCP and everything else are
/// communication, and high-rate UDP is observation.
pub open spec fn edge_type_of(protocol: u8, dst_port: u32, high_packet_rate: bool) -> EdgeType {
    if protocol == 6 && (dst_port == 22 || dst_port == 23 || dst_port == 3389 || dst_port == 21) {
        EdgeType::AuthenticatedTo
    } else if protocol == 6 && (dst_port == 80 || dst_port == 443 || dst_port == 8080) {
        EdgeType::CommunicatedWith
    } else if protocol == 17 && high_packet_rate {
        EdgeType::ObservedWith
    } else {
        EdgeType::CommunicatedWith
    }
}

/// Law: a flow's relation is decided by protocol and destination port:
/// TCP to a remote-login or file-transfer port (21 FTP, 22 SSH, 23 Telnet,
/// 3389 RDP) is authentication, TCP to any other port communication, UDP at
/// a high packet rate observation and at a low one communication, and any
/// other protocol communication.
pub proof fn lemma_edge_relation(protocol: u8, dst_port: u32, high_packet_rate: bool)
    ensures
        protocol == 6 && (dst_port == 21 || dst_port == 22 || dst_port == 23 || dst_port == 3389)
            ==> edge_type_of(protocol, dst_port, high_packet_rate) == EdgeType::AuthenticatedTo,
        protocol == 6 && !(dst_port == 21 || dst_port == 22 || dst_port == 23 || dst_port == 3389)
            ==> edge_type_of(protocol, dst_port, high_packet_rate) == EdgeType::CommunicatedWith,
        protocol == 17 && high_packet_rate ==> edge_type_of(protocol, dst_port, high_packet_rate) == EdgeType::ObservedWith,
        protocol == 17 && !high_packet_rate ==> edge_type_of(protocol, dst_port, high_packet_rate) == EdgeType::CommunicatedWith,
        protocol != 6 && protocol != 17 ==> edge_type_of(protocol, dst_port, high_packet_rate) == EdgeType::CommunicatedWith,
{
}

/// The non-numeric columns of a CSE-CIC-IDS2018 flow row that the
/// engine's rules read, with the packet-rate test already applied.
#[derive(Debug, Clone)]
pub struct CicRow {
    pub src_ip: String,
    pub dst_ip: String,
    pub dst_port: u32,
    pub protocol: u8,
    /// `DD/MM/YYYY HH:MM:SS`.
    pub timestamp: String,
    pub label: String,
    /// The flow carried more than 1000 packets per second.
    pub high_packet_rate: bool,
    pub syn_flag_cnt: u8,
    pub ack_flag_cnt: u8,
    pub tot_bwd_pkts: u64,
}

/// The default of a field when it does not parse.
pub open spec fn parse_or(s: Seq<char>, default: u64) -> u64 {
    match parse_u64(s) {
        Some(v) => v,
        None => default,
    }
}

/// `(day, month, year, hour, minute, second)` read from a timestamp, or
/// `None` when it is not two words of three `/`- and `:`-separated fields.
/// A field that does not parse takes the default 1, 1, 2018, 0, 0, 0.
pub open spec fn timestamp_fields(ts: Seq<char>) -> Option<(u64, u64, u64, u64, u64, u64)> {
    let parts = words(ts);
    if parts.len() != 2 {
        None
    } else {
        let date = split_on(parts[0], '/');
        let time = split_on(parts[1], ':');
        if date.len() != 3 || time.len() != 3 {
            None
        } else {
            Some((parse_or(date[0], 1), parse_or(date[1], 1), parse_or(date[2], 2018),
                parse_or(time[0], 0), parse_or(time[1], 0), parse_or(time[2], 0)))
        }
    }
}

/// Approximate seconds since 1970 with 365-day years and 30-day months.
pub open spec fn epoch_seconds(f: (u64, u64, u64, u64, u64, u64)) -> int {
    (f.2 - 1970) * 365 * 86400 + (f.1 - 1) * 30 * 86400 + (f.0 - 1) * 86400 + f.3 * 3600 + f.4 * 60 + f.5
}

/// Law: the approximate epoch is zero at `01/01/1970 00:00:00`, and one
/// more second, minute, hour, day, month (30 days) or year (365 days) in a
/// timestamp's fields adds 1, 60, 3 600, 86 400, 2 592 000 or 31 536 000
/// seconds.
pub proof fn lemma_epoch_seconds_steps(d: u64, m: u64, y: u64, h: u64, mi: u64, sec: u64)
    ensures
        epoch_seconds((1, 1, 1970, 0, 0, 0)) == 0,
        sec < u64::MAX ==> epoch_seconds((d, m, y, h, mi, (sec + 1) as u64)) == epoch_seconds((d, m, y, h, mi, sec)) + 1,
        mi < u64::MAX ==> epoch_seconds((d, m, y, h, (mi + 1) as u64, sec)) == epoch_seconds((d, m, y, h, mi, sec)) + 60,
        h < u64::MAX ==> epoch_seconds((d, m, y, (h + 1) as u64, mi, sec)) == epoch_seconds((d, m, y, h, mi, sec)) + 3600,
        d < u64::MAX ==> epoch_seconds(((d + 1) as u64, m, y, h, mi, sec)) == epoch_seconds((d, m, y, h, mi, sec)) + 86400,
        m < u64::MAX ==> epoch_seconds((d, (m + 1) as u64, y, h, mi, sec)) == epoch_seconds((d, m, y, h, mi, sec)) + 2592000,
        y < u64::MAX ==> epoch_seconds((d, m, (y + 1) as u64, h, mi, sec)) == epoch_seconds((d, m, y, h, mi, sec)) + 31536000,
{
}

/// The arithmetic of the timestamp stays within `u64`: year at least
/// 1970, day and month at least 1, and the total representable.
pub open spec fn epoch_ts_defined(ts: Seq<char>) -> bool {
    match timestamp_fields(ts) {
        None => true,
        Some(f) => f.2 >= 1970 && f.1 >= 1 && f.0 >= 1 && epoch_seconds(f) <= u64::MAX,
    }
}

/// The approximate Unix time of a timestamp, `0` when it is malformed.
pub open spec fn epoch_ts_of(ts: Seq<char>) -> u64 {
    match timestamp_fields(ts) {
        None => 0,
        Some(f) => epoch_seconds(f) as u64,
    }
}

/// Parse a field, falling back to a default.
fn parse_field_or(s: &Vec<char>, default: u64) -> (r: u64)
    ensures
        r == parse_or(s@, default),
{
    match parse_u64_chars(s) {
        Some(v) => v,
        None => default,
    }
}

impl CicRow {
    /// The edge this flow adds to the entity graph: source and destination
    /// addresses and the relation given by protocol and port.
    pub fn graph_edge(&self) -> (r: (Entity, Entity, EdgeType))
        ensures
            r.0 == Entity::IpAddress(self.src_ip),
            r.1 == Entity::IpAddress(self.dst_ip),
            r.2 == edge_type_of(self.protocol, self.dst_port, self.high_packet_rate),
            self.protocol == 6 && (self.dst_port == 21 || self.dst_port == 22 || self.dst_port == 23
                || self.dst_port == 3389) ==> r.2 == EdgeType::AuthenticatedTo,
            self.protocol == 6 && !(self.dst_port == 21 || self.dst_port == 22 || self.dst_port == 23
                || self.dst_port == 3389) ==> r.2 == EdgeType::CommunicatedWith,
            self.protocol == 17 ==> r.2 == (if self.high_packet_rate { EdgeType::ObservedWith } else { EdgeType::CommunicatedWith }),
            self.protocol != 6 && self.protocol != 17 ==> r.2 == EdgeType::CommunicatedWith,
    {
        let src = Entity::IpAddress(self.src_ip.clone());
        let dst = Entity::IpAddress(self.dst_ip.clone());
        let p = self.protocol;
        let port = self.dst_port;
        let etype = if p == 6 && (port == 22 || port == 23 || port == 3389 || port == 21) {
            EdgeType::AuthenticatedTo
        } else if p == 6 && (port == 80 || port == 443 || port == 8080) {
            EdgeType::CommunicatedWith
        } else if p == 17 && self.high_packet_rate {
            EdgeType::ObservedWith
        } else {
            EdgeType::CommunicatedWith
        };
        (src, dst, etype)
    }

    /// Approximate Unix timestamp from the `DD/MM/YYYY HH:MM:SS` column, or
    /// `None` exactly when its arithmetic would leave the range of `u64`.
    pub fn checked_epoch_ts(&self) -> (r: Option<u64>)
        ensures
            r is Some <==> epoch_ts_defined(self.timestamp@),
            r matches Some(t) ==> t == epoch_ts_of(self.timestamp@),
    {
        let ts = chars_of(self.timestamp.as_str());
        let parts = split_whitespace_chars(&ts);
        let ghost tsv = self.timestamp@;
        if parts.len() != 2 {
            return Some(0);
        }
        assert(pieces_view(parts@)[0] == parts@[0]@);
        assert(pieces_view(parts@)[1] == parts@[1]@);
        let date = split_on_char(&parts[0], '/');
        let time = split_on_char(&parts[1], ':');
        if date.len() != 3 || time.len() != 3 {
            return Some(0);
        }
        assert(pieces_view(date@)[0] == date@[0]@);
        assert(pieces_view(date@)[1] == date@[1]@);
        assert(pieces_view(date@)[2] == date@[2]@);
        assert(pieces_view(time@)[0] == time@[0]@);
        assert(pieces_view(time@)[1] == time@[1]@);
        assert(pieces_view(time@)[2] == time@[2]@);
        let d = parse_field_or(&date[0], 1);
        let m = parse_field_or(&date[1], 1);
        let y = parse_field_or(&date[2], 2018);
        let h = parse_field_or(&time[0], 0);
        let mn = parse_field_or(&time[1], 0);
        let s = parse_field_or(&time[2], 0);
        let ghost f = (d, m, y, h, mn, s);
        assert(timestamp_fields(tsv) == Some(f));
        if y < 1970 || m < 1 || d < 1 {
            return None;
        }
        let yy = (y - 1970) as u128;
        let mm = (m - 1) as u128;
        let dd = (d - 1) as u128;
        assert(yy * 365 * 86400 <= 0xffff_ffff_ffff_ffff * 31536000) by (nonlinear_arith)
            requires yy <= 0xffff_ffff_ffff_ffffu128;
        assert(mm * 30 * 86400 <= 0xffff_ffff_ffff_ffff * 2592000) by (nonlinear_arith)
            requires mm <= 0xffff_ffff_ffff_ffffu128;
        assert(dd * 86400 <= 0xffff_ffff_ffff_ffff * 86400) by (nonlinear_arith)
            requires dd <= 0xffff_ffff_ffff_ffffu128;
        assert((h as u128) * 3600 <= 0xffff_ffff_ffff_ffff * 3600) by (nonlinear_arith)
            requires (h as u128) <= 0xffff_ffff_ffff_ffffu128;
        assert((mn as u128) * 60 <= 0xffff_ffff_ffff_ffff * 60) by (nonlinear_arith)
            requires (mn as u128) <= 0xffff_ffff_ffff_ffffu128;
        let total: u128 = yy * 365 * 86400 + mm * 30 * 86400 + dd * 86400 + (h as u128) * 3600
            + (mn as u128) * 60 + (s as u128);
        assert(total == epoch_seconds(f));
        if total > 0xffff_ffff_ffff_ffffu128 {
            return None;
        }
        Some(total as u64)
    }

    /// Approximate Unix timestamp from the dataset's `DD/MM/YYYY HH:MM:SS`
    /// format; `0` when the column is malformed.
    pub fn epoch_ts(&self) -> (r: u64)
        requires
            epoch_ts_defined(self.timestamp@),
        ensures
            r == epoch_ts_of(self.timestamp@),
    {
        match self.checked_epoch_ts() {
            Some(t) => t,
            None => 0,
        }
    }

    /// Service group of the destination port: `1` web, `2` remote login
    /// and file transfer, `3` DNS, `4` other well-known ports, `0` the rest.
    pub fn port_group(&self) -> (r: u8)
        ensures
            r == (if self.dst_port == 80 || self.dst_port == 443 || self.dst_port == 8080 || self.dst_port == 8443 {
                1u8
            } else if self.dst_port == 21 || self.dst_port == 22 || self.dst_port == 23 || self.dst_port == 3389 {
                2u8
            } else if self.dst_port == 53 {
                3u8
            } else if self.dst_port < 1024 {
                4u8
            } else {
                0u8
            }),
    {
        let p = self.dst_port;
        if p == 80 || p == 443 || p == 8080 || p == 8443 {
            1
        } else if p == 21 || p == 22 || p == 23 || p == 3389 {
            2
        } else if p == 53 {
            3
        } else if p < 1024 {
            4
        } else {
            0
        }
    }

    /// Transport bucket: `0` TCP, `1` UDP, `2` anything else.
    pub fn protocol_bucket(&self) -> (r: u8)
        ensures
            r == (if self.protocol == 6 { 0u8 } else if self.protocol == 17 { 1u8 } else { 2u8 }),
    {
        if self.protocol == 6 {
            0
        } else if self.protocol == 17 {
            1
        } else {
            2
        }
    }

    /// SYN seen without any ACK (half-open probing).
    pub fn syn_only(&self) -> (r: bool)
        ensures
            r == (self.syn_flag_cnt > 0 && self.ack_flag_cnt == 0),
    {
        self.syn_flag_cnt > 0 && self.ack_flag_cnt == 0
    }

    /// No backward packets were seen.
    pub fn zero_backward(&self) -> (r: bool)
        ensures
            r == (self.tot_bwd_pkts == 0),
    {
        self.tot_bwd_pkts == 0
    }
}

} // verus!
