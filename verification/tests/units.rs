//! Tests of the supporting types: errors, permissions, configuration keys,
//! embed flavours, greeting behaviour and the scheduler's decisions.

use gagbot::config::{ConfigKey, LogChannel};
use gagbot::embed::{
    EmbedFlavour, GAGBOT_COLOR_ERROR, GAGBOT_COLOR_NORMAL, GAGBOT_COLOR_SUCCESS, GAGBOT_ICON,
    GAGBOT_ICON_ERROR,
};
use gagbot::error::{Error, ErrorContext, LogBehaviour};
use gagbot::greet::GreetBehaviour;
use gagbot::ids::RoleId;
use gagbot::permissions::{EffectivePermission, Permission, PermissionCheck, PermissionType};
use gagbot::promote::{OptionallyConfiguredResult, PromoteResult, PromoteStats};
use gagbot::scheduler::{
    compress_again, due, frequency_seconds_valid_range, wake_delay_millis,
    DB_COMPRESS_MESSAGES_CRON_SCHEDULE, DB_OPTIMIZE_CRON_SCHEDULE, DB_VACUUM_CRON_SCHEDULE,
    MAX_COMPRESS_MILLIS, MAX_SLEEP_MILLIS,
};

#[test]
fn log_behaviour_constructors() {
    assert_eq!(LogBehaviour::new(true, false), LogBehaviour { log: true, obfuscate: false });
    assert_eq!(LogBehaviour::user_only(), LogBehaviour { log: false, obfuscate: false });
    assert_eq!(LogBehaviour::default(), LogBehaviour { log: true, obfuscate: true });
    assert_eq!(LogBehaviour::user_safe(), LogBehaviour { log: true, obfuscate: false });
}

#[test]
fn error_log_behaviour() {
    let denied = Error::PermissionDenied(Permission::MessagePurge);
    assert_eq!(denied.log_behaviour(), LogBehaviour::user_only());
    let full = Error::Full;
    assert_eq!(full.log_behaviour(), LogBehaviour::default());
}

#[test]
fn error_context_wraps_only_errors() {
    let ok: Result<u32, Error> = Ok(5);
    assert!(matches!(ok.context("reading"), Ok(5)));
    let err: Result<u32, Error> = Err(Error::Full);
    match err.context("appending") {
        Err(Error::WithContext(msg, inner)) => {
            assert_eq!(msg, "appending");
            assert!(matches!(*inner, Error::Full));
        }
        _ => panic!("expected a wrapped error"),
    }
    let err: Result<u32, Error> = Err(Error::Full);
    match err.with_context(|| "lazy note".to_string()) {
        Err(Error::WithContext(msg, _)) => assert_eq!(msg, "lazy note"),
        _ => panic!("expected a wrapped error"),
    }
}

#[test]
fn permission_check_finds_first_match() {
    let perms = vec![
        EffectivePermission { role: RoleId(1), permission: Permission::MemberAdd },
        EffectivePermission { role: RoleId(2), permission: Permission::MessagePurge },
        EffectivePermission { role: RoleId(3), permission: Permission::MessagePurge },
    ];
    let found = perms.require_permission(Permission::MessagePurge).unwrap();
    assert_eq!(found.role, RoleId(2));
    assert_eq!(found.permission, Permission::MessagePurge);
}

#[test]
fn permission_all_covers_everything() {
    let perms = vec![EffectivePermission { role: RoleId(9), permission: Permission::All }];
    let found = perms.require_permission(Permission::ConfigManage).unwrap();
    assert_eq!(found.role, RoleId(9));
    assert_eq!(found.permission, Permission::All);
}

#[test]
fn permission_denied_when_nothing_covers() {
    let perms = vec![
        EffectivePermission { role: RoleId(1), permission: Permission::MemberPromote },
    ];
    match perms.require_permission(Permission::PermissionManage) {
        Err(Error::PermissionDenied(p)) => assert_eq!(p, Permission::PermissionManage),
        _ => panic!("expected a denial"),
    }
    let _ = PermissionType::Role;
    let _ = PermissionType::User;
}

#[test]
fn logging_keys_lists_the_five_channels() {
    let keys = ConfigKey::logging_keys();
    assert_eq!(
        keys,
        vec![
            ConfigKey::LoggingGeneral,
            ConfigKey::LoggingEditsAndDeletes,
            ConfigKey::LoggingJoiningAndLeaving,
            ConfigKey::LoggingErrors,
            ConfigKey::LoggingVoiceActivity,
        ]
    );
}

#[test]
fn descriptions_name_each_setting() {
    assert_eq!(ConfigKey::GreetChannel.description(), "Channel to post the greeting in");
    assert_eq!(
        ConfigKey::PromoteJuniorMinAge.description(),
        "How long (in days) juniors have to stick around to be promoted"
    );
    assert_eq!(
        ConfigKey::LoggingErrors.description(),
        "Channel to log bot errors in"
    );
}

#[test]
fn log_channel_maps_to_its_config_key() {
    assert_eq!(LogChannel::General.config_key(), ConfigKey::LoggingGeneral);
    assert_eq!(LogChannel::Error.config_key(), ConfigKey::LoggingErrors);
    assert_eq!(LogChannel::EditsAndDeletes.config_key(), ConfigKey::LoggingEditsAndDeletes);
    assert_eq!(
        LogChannel::JoiningAndLeaving.config_key(),
        ConfigKey::LoggingJoiningAndLeaving
    );
    assert_eq!(LogChannel::VoiceActivity.config_key(), ConfigKey::LoggingVoiceActivity);
}

#[test]
fn embed_flavour_thumbnails_and_colors() {
    assert_eq!(EmbedFlavour::Error.thumbnail_url(), GAGBOT_ICON_ERROR);
    assert_eq!(EmbedFlavour::Normal.thumbnail_url(), GAGBOT_ICON);
    assert_eq!(EmbedFlavour::Success.thumbnail_url(), GAGBOT_ICON);
    assert_eq!(EmbedFlavour::Normal.color(), GAGBOT_COLOR_NORMAL);
    assert_eq!(EmbedFlavour::Error.color(), GAGBOT_COLOR_ERROR);
    assert_eq!(EmbedFlavour::Success.color(), GAGBOT_COLOR_SUCCESS);
    assert_eq!(EmbedFlavour::LogEdit.color(), 0x30649c);
    assert_eq!(EmbedFlavour::LogDelete.color(), 0x9c3730);
    assert_eq!(EmbedFlavour::LogJoin.color(), 0x009900);
    assert_eq!(EmbedFlavour::LogLeave.color(), 0x990044);
}

#[test]
fn greet_behaviour_flags() {
    assert!(GreetBehaviour::Greet.greet());
    assert!(!GreetBehaviour::Greet.apply_role());
    assert!(!GreetBehaviour::ApplyRole.greet());
    assert!(GreetBehaviour::ApplyRole.apply_role());
    assert!(GreetBehaviour::Both.greet());
    assert!(GreetBehaviour::Both.apply_role());
}

#[test]
fn promote_types_hold_their_data() {
    let stats = PromoteStats::default();
    assert_eq!(stats, PromoteStats { promoted: 0, unqualified: 0, total: 0 });
    let r = PromoteResult::Configured(PromoteStats { promoted: 2, unqualified: 1, total: 3 });
    match r {
        PromoteResult::Configured(s) => assert_eq!(s.total, 3),
        PromoteResult::Unconfigured(_) => panic!("configured result expected"),
    }
    let o: OptionallyConfiguredResult<u32> =
        OptionallyConfiguredResult::Unconfigured(ConfigKey::GreetRole);
    assert!(matches!(o, OptionallyConfiguredResult::Unconfigured(ConfigKey::GreetRole)));
}

#[test]
fn wake_delay_is_capped_and_never_negative() {
    // already due: no sleep
    assert_eq!(wake_delay_millis(1_000, 1_000), 0);
    assert_eq!(wake_delay_millis(2_000, 1_000), 0);
    // short wait: sleep exactly until the occurrence
    assert_eq!(wake_delay_millis(1_000, 4_500), 3_500);
    // long wait: capped, so clock drift is re-examined within one interval
    assert_eq!(wake_delay_millis(0, 10 * 60 * 1000 + 1), MAX_SLEEP_MILLIS);
    assert_eq!(wake_delay_millis(i64::MIN, i64::MAX), MAX_SLEEP_MILLIS);
}

#[test]
fn due_checks_wall_clock() {
    assert!(due(100, 100));
    assert!(due(101, 100));
    assert!(!due(99, 100));
}

#[test]
fn compress_budget_limits_a_cycle() {
    assert!(compress_again(0, true));
    assert!(compress_again(MAX_COMPRESS_MILLIS - 1, true));
    assert!(!compress_again(MAX_COMPRESS_MILLIS, true));
    assert!(!compress_again(0, false));
}

#[test]
fn frequency_must_be_at_least_a_minute() {
    assert_eq!(frequency_seconds_valid_range(60).unwrap(), 60);
    assert_eq!(frequency_seconds_valid_range(3600).unwrap(), 3600);
    assert!(frequency_seconds_valid_range(59).is_err());
    assert!(frequency_seconds_valid_range(0).is_err());
}

#[test]
fn cron_schedules_parse() {
    for pattern in [
        DB_OPTIMIZE_CRON_SCHEDULE,
        DB_VACUUM_CRON_SCHEDULE,
        DB_COMPRESS_MESSAGES_CRON_SCHEDULE,
    ] {
        let cron = croner::parser::CronParser::new().parse(pattern).unwrap();
        let now = chrono::Utc::now();
        let next = cron.find_next_occurrence(&now, false).unwrap();
        assert!(next > now);
    }
}
