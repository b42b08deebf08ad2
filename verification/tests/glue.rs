use builder_core::oauth::{
    Bitbucket, OAuth2Cfg, OAuth2User, OAuthError, TokenRequest, User, UserOk, UserRequest,
};
use builder_core::origin::{
    membership_found, Origin, OriginMessage, OriginPackageVisibility, PackageVisibility, Timestamp,
};

fn config() -> OAuth2Cfg {
    OAuth2Cfg {
        client_id: "client".to_string(),
        client_secret: "hush".to_string(),
        token_url: "https://bitbucket.example/site/oauth2/access_token".to_string(),
        userinfo_url: "https://bitbucket.example/1.0/user".to_string(),
    }
}

#[test]
fn token_request_carries_the_code_in_a_form() {
    let request = Bitbucket.token_request(&config(), "abc123");
    assert_eq!(
        request,
        TokenRequest {
            url: "https://bitbucket.example/site/oauth2/access_token".to_string(),
            body: "grant_type=authorization_code&code=abc123".to_string(),
            client_id: "client".to_string(),
            client_secret: "hush".to_string(),
        }
    );
    assert_eq!(Bitbucket.token_request(&config(), "").body, "grant_type=authorization_code&code=");
}

#[test]
fn user_request_carries_the_token() {
    assert_eq!(
        Bitbucket.user_request(&config(), "tok"),
        UserRequest { url: "https://bitbucket.example/1.0/user".to_string(), token: "tok".to_string() }
    );
}

#[test]
fn success_is_any_status_from_200_to_299() {
    assert!(!Bitbucket::is_success(199));
    assert!(Bitbucket::is_success(200));
    assert!(Bitbucket::is_success(204));
    assert!(Bitbucket::is_success(299));
    assert!(!Bitbucket::is_success(300));
    assert!(!Bitbucket::is_success(404));
    assert!(!Bitbucket::is_success(0));
}

#[test]
fn token_reply_gives_the_token_or_the_reason() {
    let body = "{\"access_token\":\"tok\"}".to_string();
    assert_eq!(
        Bitbucket.token_from_reply(200, body.clone(), Ok("tok".to_string())),
        Ok("tok".to_string())
    );
    assert_eq!(
        Bitbucket.token_from_reply(200, "oops".to_string(), Err("expected value".to_string())),
        Err(OAuthError::Serialization("expected value".to_string()))
    );
    assert_eq!(
        Bitbucket.token_from_reply(401, "denied".to_string(), Err("expected value".to_string())),
        Err(OAuthError::HttpResponse(401, "denied".to_string()))
    );
    assert_eq!(
        Bitbucket.token_from_reply(500, body.clone(), Ok("tok".to_string())),
        Err(OAuthError::HttpResponse(500, body))
    );
}

#[test]
fn user_reply_gives_the_user_or_the_reason() {
    let reply = || UserOk { user: User { username: "alice".to_string() } };
    assert_eq!(
        Bitbucket.user_from_reply(200, "{}".to_string(), Ok(reply())),
        Ok(OAuth2User { id: "alice".to_string(), username: "alice".to_string(), email: None })
    );
    assert_eq!(
        Bitbucket.user_from_reply(201, "{}".to_string(), Err("missing field `user`".to_string())),
        Err(OAuthError::Serialization("missing field `user`".to_string()))
    );
    assert_eq!(
        Bitbucket.user_from_reply(403, "no".to_string(), Ok(reply())),
        Err(OAuthError::HttpResponse(403, "no".to_string()))
    );
}

#[test]
fn origin_goes_into_a_message_and_back() {
    let stored = Origin {
        owner_id: 42,
        name: "core".to_string(),
        created_at: Some(Timestamp { secs: 1_500_000_000, nanos: 7 }),
        updated_at: None,
        default_package_visibility: PackageVisibility::Private,
    };
    let message = OriginMessage::from(stored);
    assert_eq!(
        message,
        OriginMessage {
            owner_id: 42,
            name: "core".to_string(),
            default_package_visibility: OriginPackageVisibility::Private,
        }
    );
    assert_eq!(
        Origin::from(message),
        Origin {
            owner_id: 42,
            name: "core".to_string(),
            created_at: None,
            updated_at: None,
            default_package_visibility: PackageVisibility::Private,
        }
    );
}

#[test]
fn owner_ids_keep_their_bits() {
    let message_for = |owner_id: i64| {
        OriginMessage::from(Origin {
            owner_id,
            name: String::new(),
            created_at: None,
            updated_at: None,
            default_package_visibility: PackageVisibility::Public,
        })
    };
    assert_eq!(message_for(0).owner_id, 0);
    assert_eq!(message_for(i64::MAX).owner_id, 9_223_372_036_854_775_807);
    assert_eq!(message_for(-1).owner_id, u64::MAX);
    assert_eq!(message_for(i64::MIN).owner_id, 9_223_372_036_854_775_808);
    assert_eq!(message_for(-2).owner_id, (-2i64) as u64);
    let origin_for = |owner_id: u64| {
        Origin::from(OriginMessage {
            owner_id,
            name: String::new(),
            default_package_visibility: OriginPackageVisibility::Hidden,
        })
    };
    assert_eq!(origin_for(0).owner_id, 0);
    assert_eq!(origin_for(u64::MAX).owner_id, -1);
    assert_eq!(origin_for(9_223_372_036_854_775_808).owner_id, i64::MIN);
    assert_eq!(origin_for(9_223_372_036_854_775_807).owner_id, i64::MAX);
    assert_eq!(origin_for(7).default_package_visibility, PackageVisibility::Hidden);
}

#[test]
fn visibilities_map_one_to_one() {
    let pairs = [
        (PackageVisibility::Public, OriginPackageVisibility::Public),
        (PackageVisibility::Private, OriginPackageVisibility::Private),
        (PackageVisibility::Hidden, OriginPackageVisibility::Hidden),
    ];
    for (stored, message) in pairs {
        assert_eq!(OriginPackageVisibility::from(stored), message);
        assert_eq!(PackageVisibility::from(message), stored);
    }
}

#[test]
fn membership_needs_a_row() {
    assert!(!membership_found(0));
    assert!(membership_found(1));
    assert!(membership_found(17));
}
