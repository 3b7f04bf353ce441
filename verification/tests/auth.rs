//! Permissions, users and the authentication service.

use libtau::auth::{AuthEvent, AuthResult, AuthService, SyscallError, User, UserStore};
use libtau::names::NameMap;
use libtau::perm::Perm;
use std::collections::HashMap;

/// A small linear congruential generator, so that the cases are the same in every run.
struct Draw(u64);

impl Draw {
    fn next(&mut self) -> u64 {
        self.0 = self
            .0
            .wrapping_mul(6364136223846793005)
            .wrapping_add(1442695040888963407);
        self.0 >> 16
    }

    fn within(&mut self, lo: i64, hi: i64) -> i64 {
        lo + (self.next() % ((hi - lo) as u64 + 1)) as i64
    }

    fn perm(&mut self) -> Perm {
        Perm::from_bits_truncate(self.within(0, 0b1_1111) as u8)
    }

    fn name(&mut self) -> String {
        let mut s = String::new();
        s.push((b'a' + self.within(0, 25) as u8) as char);
        for _ in 0..self.within(0, 15) {
            s.push((b'a' + self.within(0, 25) as u8) as char);
        }
        s
    }

    fn grants(&mut self) -> HashMap<String, Perm> {
        let mut grants: HashMap<String, Perm> =
            (0..self.within(0, 6)).map(|_| (self.name(), self.perm())).collect();
        if self.within(0, 2) == 0 {
            let p = self.perm();
            grants.insert("*".into(), p);
        }
        grants
    }
}

fn named(grants: &HashMap<String, Perm>) -> NameMap<Perm> {
    let mut m = NameMap::new();
    for (db, p) in grants {
        m.insert(db, *p);
    }
    m
}

#[test]
fn pbt_perm_display_parse_roundtrip() {
    for bits in 0..32u8 {
        let p = Perm::from_bits_truncate(bits);
        assert_eq!(Perm::parse(&p.text()).unwrap(), p);
        assert_eq!(p.bits(), bits);
    }
}

#[test]
fn pbt_perm_parse_letter_order_is_irrelevant() {
    for bits in 0..32u8 {
        let p = Perm::from_bits_truncate(bits);
        let chars: Vec<char> = p.text().chars().collect();
        if chars.len() <= 1 || chars == vec!['-'] {
            continue;
        }
        for shift in 0..5 {
            let mut chars = chars.clone();
            let len = chars.len();
            chars.rotate_left(shift % len);
            let permuted: String = chars.into_iter().collect();
            assert_eq!(Perm::parse(&permuted).unwrap(), p);
        }
    }
}

#[test]
fn pbt_perm_parse_case_insensitive() {
    for bits in 0..32u8 {
        let upper = Perm::from_bits_truncate(bits).text();
        let lower = upper.to_lowercase();
        assert_eq!(Perm::parse(&upper), Perm::parse(&lower));
    }
}

#[test]
fn perm_parse_special_tokens() {
    assert_eq!(Perm::parse("*").unwrap(), Perm::all());
    assert_eq!(Perm::parse("-").unwrap(), Perm::none());
    assert_eq!(Perm::parse("").unwrap(), Perm::none());
}

#[test]
fn pbt_perm_parse_rejects_unknown_letter() {
    for bad in "BEFGHIbxyz019.,/_@#\u{e9}\u{1f600}\n".chars() {
        let mut s = String::from("CR");
        s.push(bad);
        assert!(Perm::parse(&s).is_err(), "{s:?}");
    }
}

#[test]
fn pbt_perm_bitops_are_commutative_and_associative() {
    for seed in 1..=100 {
        let mut tc = Draw(seed);
        let (a, b, c) = (tc.perm(), tc.perm(), tc.perm());
        assert_eq!(a.union(b), b.union(a));
        assert_eq!(a.intersection(b), b.intersection(a));
        assert_eq!(a.union(b).union(c), a.union(b.union(c)));
        assert_eq!(
            a.intersection(b).intersection(c),
            a.intersection(b.intersection(c))
        );
        assert_eq!(a.union(b).bits(), a.bits() | b.bits());
        assert_eq!(a.intersection(b).bits(), a.bits() & b.bits());
    }
}

#[test]
fn pbt_perm_contains_iff_bits_are_subset() {
    for p in 0..32u8 {
        for q in 0..32u8 {
            let expected = (p & q) == q;
            assert_eq!(
                Perm::from_bits_truncate(p).contains(Perm::from_bits_truncate(q)),
                expected
            );
        }
    }
}

#[test]
fn pbt_perm_insert_remove_inverse() {
    for a in 0..32u8 {
        for b in 0..32u8 {
            let mut p = Perm::from_bits_truncate(a);
            let q = Perm::from_bits_truncate(b);
            let original = p;
            p.insert(q);
            p.remove(q);
            assert_eq!(p, Perm::from_bits_truncate(original.bits() & !q.bits()));
        }
    }
}

#[test]
fn pbt_user_verify_accepts_correct_password_only() {
    let passwords = ["p", "P", "hunter2", " p", "p ", "\u{e9}", "a much longer password"];
    for pw in passwords {
        let u = User::new("u", pw, NameMap::new());
        for other in passwords {
            assert_eq!(u.verify(other), other == pw);
        }
    }
}

#[test]
fn pbt_user_effective_equals_direct_union_wildcard() {
    for seed in 1..=100 {
        let mut tc = Draw(seed);
        let grants = tc.grants();
        let db = if tc.within(0, 1) == 0 || grants.is_empty() {
            tc.name()
        } else {
            grants.keys().next().unwrap().clone()
        };
        let u = User::new("u", "p", named(&grants));
        let direct = grants.get(&db).copied().unwrap_or(Perm::none());
        let wildcard = grants.get("*").copied().unwrap_or(Perm::none());
        assert_eq!(u.effective(&db), direct.union(wildcard));
    }
}

#[test]
fn pbt_user_is_global_admin_iff_admin_on_wildcard() {
    for seed in 1..=100 {
        let mut tc = Draw(seed);
        let grants = tc.grants();
        let u = User::new("u", "p", named(&grants));
        let expected = grants
            .get("*")
            .map(|p| p.contains(Perm::a()))
            .unwrap_or(false);
        assert_eq!(u.is_global_admin(), expected);
    }
}

#[test]
fn pbt_store_add_then_get_returns_user() {
    for seed in 1..=30 {
        let mut tc = Draw(seed);
        let name = tc.name();
        let mut s = UserStore::new();
        s.add(User::new(&name, "p", NameMap::new())).unwrap();
        assert!(s.get(&name).is_some());
        assert!(s.add(User::new(&name, "p", NameMap::new())).is_err());
    }
}

#[test]
fn pbt_store_remove_then_get_returns_none() {
    for seed in 1..=30 {
        let mut tc = Draw(seed);
        let name = tc.name();
        let mut s = UserStore::new();
        s.add(User::new(&name, "p", NameMap::new())).unwrap();
        s.remove(&name).unwrap();
        assert!(s.get(&name).is_none());
        assert!(s.remove(&name).is_err());
    }
}

#[test]
fn pbt_store_grant_then_revoke_is_identity_on_perms() {
    for seed in 1..=50 {
        let mut tc = Draw(seed);
        let (name, db, to_add) = (tc.name(), tc.name(), tc.perm());
        let mut s = UserStore::new();
        s.add(User::new(&name, "p", NameMap::new())).unwrap();
        let before = s.get(&name).unwrap().effective(&db);
        s.grant(&name, &db, to_add).unwrap();
        s.revoke(&name, &db, to_add).unwrap();
        assert_eq!(s.get(&name).unwrap().effective(&db), before);
    }
}

#[test]
fn pbt_store_grant_unions_into_existing_perms() {
    for seed in 1..=50 {
        let mut tc = Draw(seed);
        let (name, db, p1, p2) = (tc.name(), tc.name(), tc.perm(), tc.perm());
        let mut s = UserStore::new();
        s.add(User::new(&name, "p", NameMap::new())).unwrap();
        s.grant(&name, &db, p1).unwrap();
        let result = s.grant(&name, &db, p2).unwrap();
        assert_eq!(result, p1.union(p2));
    }
}

#[test]
fn the_service_answers_events() {
    let mut s = AuthService::new(UserStore::new());
    let created = s
        .auth(AuthEvent::CreateUser {
            name: "bob".into(),
            password: "hunter2".into(),
            grants: NameMap::new(),
        })
        .unwrap();
    assert!(matches!(created, AuthResult::UserOp));
    assert_eq!(s.authenticate("bob", "hunter2"), Some(true));
    assert_eq!(s.authenticate("bob", "wrong"), Some(false));
    assert_eq!(s.authenticate("nobody", "x"), None);
    s.grant("bob", "main", Perm::r()).unwrap();
    assert!(s.check_permission("bob", "main", Perm::r()));
    assert!(!s.check_permission("bob", "main", Perm::c()));
    assert!(!s.is_admin("bob"));
    s.set_password("bob", "next").unwrap();
    assert_eq!(s.authenticate("bob", "next"), Some(true));
    assert_eq!(s.list_users(), vec!["bob".to_string()]);
    assert_eq!(s.list_grants("bob"), Some(vec![("main".to_string(), Perm::r())]));
    assert_eq!(s.list_grants("nobody"), None);
    let refused: Result<(), SyscallError> = Err(SyscallError::NotSupported);
    assert!(refused.is_err());
}
