//! The settings of the program. Paths are held as texts, times in nanoseconds.

use crate::paths;
use crate::paths::join_path;
use crate::text;
use crate::text::owned;
use vstd::prelude::*;

verus! {

#[derive(Debug, Clone)]
pub struct AgentConfig {
    pub mode: String,
    pub timezone: String,
    pub session_summary_strategy: String,
}

#[derive(Debug, Clone)]
pub struct StorageConfig {
    pub root_dir: String,
}

#[derive(Debug, Clone)]
pub struct SchedulerConfig {
    pub enabled: bool,
    pub daily_run_time: String,
    pub report_to_user_id: Option<String>,
}

#[derive(Debug, Clone)]
pub struct LlmConfig {
    pub provider: String,
    pub model: String,
    pub max_tokens: usize,
}

#[derive(Debug, Clone)]
pub struct WechatConfig {
    pub channel_version: String,
}

#[derive(Debug, Clone)]
pub struct BrowserConfig {
    pub enabled: bool,
    pub command: String,
    pub worker_script: String,
    pub timeout_secs: u64,
    pub headless: bool,
    pub mobile_viewport: bool,
}

#[derive(Debug, Clone)]
pub struct SessionConfig {
    pub merge_timeout_secs: u64,
}

/// All settings, and the directory that relative paths start from.
#[derive(Debug, Clone)]
pub struct AppConfig {
    pub agent: AgentConfig,
    pub storage: StorageConfig,
    pub scheduler: SchedulerConfig,
    pub llm: LlmConfig,
    pub browser: BrowserConfig,
    pub wechat: WechatConfig,
    pub session: SessionConfig,
    pub base_dir: String,
}

/// The browser as it is started.
#[derive(Debug, Clone, PartialEq, Eq)]
pub struct ResolvedBrowserConfig {
    pub command: String,
    pub worker_script: String,
    pub timeout: u128,
    pub headless: bool,
    pub mobile_viewport: bool,
}

impl Default for AgentConfig {
    fn default() -> (r: Self)
        ensures
            r.mode@ == "restricted"@,
            r.timezone@ == "Asia/Shanghai"@,
            r.session_summary_strategy@ == "semantic"@,
    {
        AgentConfig {
            mode: owned("restricted"),
            timezone: owned("Asia/Shanghai"),
            session_summary_strategy: owned("semantic"),
        }
    }
}

impl Default for StorageConfig {
    fn default() -> (r: Self)
        ensures
            r.root_dir@ == "./data"@,
    {
        StorageConfig { root_dir: owned("./data") }
    }
}

impl Default for SchedulerConfig {
    fn default() -> (r: Self)
        ensures
            r.enabled,
            r.daily_run_time@ == "22:30"@,
            r.report_to_user_id is None,
    {
        SchedulerConfig { enabled: true, daily_run_time: owned("22:30"), report_to_user_id: None }
    }
}

impl Default for LlmConfig {
    fn default() -> (r: Self)
        ensures
            r.provider@ == "deepseek"@,
            r.model@ == "deepseek-chat"@,
            r.max_tokens == 800,
    {
        LlmConfig { provider: owned("deepseek"), model: owned("deepseek-chat"), max_tokens: 800 }
    }
}

impl Default for WechatConfig {
    fn default() -> (r: Self)
        ensures
            r.channel_version@ == "1.0.0"@,
    {
        WechatConfig { channel_version: owned("1.0.0") }
    }
}

impl Default for BrowserConfig {
    fn default() -> (r: Self)
        ensures
            !r.enabled,
            r.command@ == "node"@,
            r.worker_script@ == "./tools/browser_worker/worker.mjs"@,
            r.timeout_secs == 45,
            r.headless,
            r.mobile_viewport,
    {
        BrowserConfig {
            enabled: false,
            command: owned("node"),
            worker_script: owned("./tools/browser_worker/worker.mjs"),
            timeout_secs: 45,
            headless: true,
            mobile_viewport: true,
        }
    }
}

impl Default for SessionConfig {
    fn default() -> (r: Self)
        ensures
            r.merge_timeout_secs == 5,
    {
        SessionConfig { merge_timeout_secs: 5 }
    }
}

impl Default for AppConfig {
    fn default() -> (r: Self)
        ensures
            r.agent.mode@ == "restricted"@,
            r.agent.timezone@ == "Asia/Shanghai"@,
            r.agent.session_summary_strategy@ == "semantic"@,
            r.storage.root_dir@ == "./data"@,
            r.scheduler.enabled,
            r.scheduler.daily_run_time@ == "22:30"@,
            r.scheduler.report_to_user_id is None,
            r.llm.provider@ == "deepseek"@,
            r.llm.model@ == "deepseek-chat"@,
            r.llm.max_tokens == 800,
            !r.browser.enabled,
            r.browser.command@ == "node"@,
            r.browser.worker_script@ == "./tools/browser_worker/worker.mjs"@,
            r.browser.timeout_secs == 45,
            r.browser.headless,
            r.browser.mobile_viewport,
            r.wechat.channel_version@ == "1.0.0"@,
            r.session.merge_timeout_secs == 5,
            r.base_dir@ == Seq::<char>::empty(),
    {
        let base_dir = String::new();
        proof {
            assert(base_dir@ =~= Seq::<char>::empty());
        }
        AppConfig {
            agent: AgentConfig::default(),
            storage: StorageConfig::default(),
            scheduler: SchedulerConfig::default(),
            llm: LlmConfig::default(),
            browser: BrowserConfig::default(),
            wechat: WechatConfig::default(),
            session: SessionConfig::default(),
            base_dir,
        }
    }
}

pub const NANOS_PER_SEC: u128 = 1_000_000_000;

impl AppConfig {
    /// The directory of all stored data.
    pub open spec fn root(&self) -> Seq<char> {
        paths::joined(self.base_dir@, self.storage.root_dir@)
    }

    pub fn resolved_root_dir(&self) -> (r: String)
        ensures
            r@ == self.root(),
    {
        join_path(self.base_dir.as_str(), self.storage.root_dir.as_str())
    }

    pub fn db_path(&self) -> (r: String)
        ensures
            r@ == paths::joined(self.root(), "amclaw.db"@),
    {
        let root = self.resolved_root_dir();
        join_path(root.as_str(), "amclaw.db")
    }

    pub fn session_merge_timeout(&self) -> (r: u128)
        ensures
            r == self.session.merge_timeout_secs * NANOS_PER_SEC,
    {
        self.session.merge_timeout_secs as u128 * NANOS_PER_SEC
    }

    /// The browser, where one is to be used.
    pub fn resolved_browser(&self) -> (r: Option<ResolvedBrowserConfig>)
        ensures
            match r {
                Some(b) => {
                    &&& self.browser.enabled
                    &&& b.command@ == self.browser.command@
                    &&& b.worker_script@ == paths::joined(self.base_dir@, self.browser.worker_script@)
                    &&& b.timeout == self.browser.timeout_secs * NANOS_PER_SEC
                    &&& b.headless == self.browser.headless
                    &&& b.mobile_viewport == self.browser.mobile_viewport
                },
                None => !self.browser.enabled,
            },
    {
        if !self.browser.enabled {
            return None;
        }
        Some(
            ResolvedBrowserConfig {
                command: owned(self.browser.command.as_str()),
                worker_script: join_path(
                    self.base_dir.as_str(),
                    self.browser.worker_script.as_str(),
                ),
                timeout: self.browser.timeout_secs as u128 * NANOS_PER_SEC,
                headless: self.browser.headless,
                mobile_viewport: self.browser.mobile_viewport,
            },
        )
    }
}

/// The directory of stored data and the database stand below the directory of the
/// configuration: with the default storage at `data/amclaw.db`.
pub proof fn lemma_default_db_path(config: AppConfig)
    requires
        config.storage.root_dir@ == "./data"@,
    ensures
        paths::path_steps(paths::joined(config.root(), "amclaw.db"@)) == paths::path_steps(
            config.base_dir@,
        ).push("data"@).push("amclaw.db"@),
{
    reveal_strlit("./data");
    reveal_strlit("data");
    reveal_strlit(".");
    reveal_strlit("/");
    reveal_strlit("amclaw.db");
    assert(!paths::absolute("./data"@)) by {
        assert("./data"@.subrange(0, 1)[0] == '.');
    }
    assert(!paths::absolute("amclaw.db"@)) by {
        assert("amclaw.db"@.subrange(0, 1)[0] == 'a');
    }
    assert(!paths::absolute("data"@)) by {
        assert("data"@.subrange(0, 1)[0] == 'd');
    }
    assert(!text::ends_with("."@, "/"@)) by {
        assert("."@.subrange(0, 1)[0] == '.');
    }
    paths::lemma_joined_steps(config.base_dir@, "./data"@);
    paths::lemma_joined_steps(config.root(), "amclaw.db"@);
    assert("./data"@ =~= paths::joined("."@, "data"@));
    paths::lemma_joined_steps("."@, "data"@);
    paths::lemma_dot_steps();
    paths::lemma_name_steps("data"@);
    paths::lemma_name_steps("amclaw.db"@);
    let steps = paths::path_steps(config.base_dir@);
    assert(steps + (Seq::empty() + seq!["data"@]) + seq!["amclaw.db"@] =~= steps.push("data"@).push(
        "amclaw.db"@,
    ));
}

} // verus!
