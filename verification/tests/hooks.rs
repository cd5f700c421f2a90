use gstoverlays::hooks::{compose_commands, DrawHook, DrawHookContext, DrawHooks};
use gstoverlays::render::DrawCommand;
use gstoverlays::scalar::Scalar;

fn scalar(v: f32) -> Scalar {
    Scalar::from_bits(v.to_bits())
}

fn marker(x: f32) -> DrawCommand {
    DrawCommand::Circle {
        cx: scalar(x),
        cy: scalar(0.0),
        radius: scalar(1.0),
        argb: 0,
    }
}

/// Draws an unfilled rectangular border inset from the frame edges.
struct Border {
    argb: u32,
    inset: f32,
}

impl DrawHook for Border {
    fn draw(&self, ctx: &DrawHookContext) -> Vec<DrawCommand> {
        vec![DrawCommand::Rectangle {
            x: scalar(self.inset),
            y: scalar(self.inset),
            width: scalar((ctx.width as f32 - 2.0 * self.inset).max(0.0)),
            height: scalar((ctx.height as f32 - 2.0 * self.inset).max(0.0)),
            rotation: scalar(0.0),
            argb: self.argb,
            filled: false,
        }]
    }
}

fn small_box() -> Vec<DrawCommand> {
    vec![DrawCommand::Rectangle {
        x: scalar(1.0),
        y: scalar(1.0),
        width: scalar(2.0),
        height: scalar(2.0),
        rotation: scalar(0.0),
        argb: 0,
        filled: false,
    }]
}

#[test]
fn no_hooks_returns_builtins_unchanged() {
    let hooks = DrawHooks::default();
    let builtins = vec![marker(1.0), marker(2.0)];
    let ctx = DrawHookContext {
        width: 100,
        height: 100,
    };
    assert_eq!(hooks.compose(&builtins, &ctx), builtins);
}

#[test]
fn pre_hook_draws_before_and_post_hook_after_builtins() {
    let mut hooks = DrawHooks::default();
    hooks.set_pre(Box::new(|_: &DrawHookContext| vec![marker(0.0)]));
    hooks.set_post(Box::new(|_: &DrawHookContext| vec![marker(9.0)]));

    let builtins = vec![marker(5.0)];
    let ctx = DrawHookContext {
        width: 100,
        height: 100,
    };
    let composed = hooks.compose(&builtins, &ctx);

    // Order is pre, built-ins, post.
    assert_eq!(composed, vec![marker(0.0), marker(5.0), marker(9.0)]);
}

#[test]
fn hook_receives_frame_dimensions() {
    let mut hooks = DrawHooks::default();
    hooks.set_post(Box::new(|ctx: &DrawHookContext| {
        vec![marker(ctx.width as f32)]
    }));

    let ctx = DrawHookContext {
        width: 640,
        height: 480,
    };
    let composed = hooks.compose(&Vec::new(), &ctx);
    assert_eq!(composed, vec![marker(640.0)]);
}

#[test]
fn clear_removes_both_hooks() {
    let mut hooks = DrawHooks::default();
    hooks.set_pre(Box::new(|_: &DrawHookContext| vec![marker(0.0)]));
    hooks.set_post(Box::new(|_: &DrawHookContext| vec![marker(9.0)]));
    hooks.clear();

    let builtins = vec![marker(5.0)];
    let ctx = DrawHookContext {
        width: 1,
        height: 1,
    };
    assert_eq!(hooks.compose(&builtins, &ctx), builtins);
}

#[test]
fn host_post_draw_hook_is_appended_to_built_in_commands() {
    let mut hooks = DrawHooks::default();
    hooks.set_post(Box::new(Border {
        argb: 0xFF00_FF00,
        inset: 0.0,
    }));

    let builtins = small_box();
    let composed = hooks.compose_with_hooks(&builtins, false, 100, 80);

    // Built-in first, then the host's full-frame border on top.
    assert_eq!(composed.len(), 2);
    assert_eq!(composed[0], builtins[0]);
    assert!(matches!(
        composed[1],
        DrawCommand::Rectangle {
            width,
            height,
            filled: false,
            ..
        } if width == scalar(100.0) && height == scalar(80.0)
    ));
}

#[test]
fn suppress_builtin_rendering_replaces_builtins_with_hooks() {
    let mut hooks = DrawHooks::default();
    hooks.set_post(Box::new(Border {
        argb: 0xFF00_FF00,
        inset: 0.0,
    }));

    let composed = hooks.compose_with_hooks(&small_box(), true, 100, 80);

    // The built-ins are dropped; only the host's border remains.
    assert_eq!(composed.len(), 1);
    assert!(matches!(
        composed[0],
        DrawCommand::Rectangle { width, height, .. }
            if width == scalar(100.0) && height == scalar(80.0)
    ));
}

#[test]
fn suppress_builtin_rendering_without_hooks_keeps_builtins() {
    let hooks = DrawHooks::default();
    let builtins = small_box();
    // Suppression only applies when a hook replaces the built-ins; with no
    // hook set it is a no-op so the built-ins are kept (never silently blank).
    assert_eq!(hooks.compose_with_hooks(&builtins, true, 100, 80), builtins);
    assert!(!hooks.suppresses_builtins(true));
    assert!(!hooks.has_hooks());
}

#[test]
fn composition_keeps_the_given_sequence() {
    assert_eq!(
        compose_commands(Some(vec![marker(1.0)]), &vec![marker(2.0)], None),
        vec![marker(1.0), marker(2.0)]
    );
}
