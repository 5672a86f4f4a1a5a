#!/bin/sh
# Builds the shim in the directory given as the first argument, and prints the
# flags with which rustc links the program in app/ against it and LLVM.
set -eu

here=$(cd "$(dirname "$0")" && pwd)
out=${1:?usage: link_flags.sh DIRECTORY}

find_llvm_config() {
    if [ -n "${LLVM_CONFIG_PATH:-}" ] && [ -f "$LLVM_CONFIG_PATH" ]; then
        echo "$LLVM_CONFIG_PATH"
        return
    fi
    if command -v llvm-config >/dev/null 2>&1; then
        echo llvm-config
        return
    fi
    if command -v brew >/dev/null 2>&1; then
        candidate="$(brew --prefix llvm)/bin/llvm-config"
        if [ -f "$candidate" ]; then
            echo "$candidate"
            return
        fi
    fi
    echo "could not find llvm-config. Set LLVM_CONFIG_PATH, add llvm-config to PATH, or (on macOS) install LLVM via Homebrew" >&2
    exit 1
}

llvm_config=$(find_llvm_config)
mkdir -p "$out"
cc -c "$here/llvm_init_shim.c" -I "$("$llvm_config" --includedir)" -o "$out/llvm_init_shim.o"
ar crus "$out/libllvm_init_shim.a" "$out/llvm_init_shim.o"

flags="-L native=$("$llvm_config" --libdir) -L native=$out -l static=llvm_init_shim"
for token in $("$llvm_config" --libs) $("$llvm_config" --system-libs); do
    case $token in
        -l*) flags="$flags -l ${token#-l}" ;;
        -L*) flags="$flags -L native=${token#-L}" ;;
    esac
done
echo "$flags"
